use vstd::prelude::*;
use crate::events::{doc_events, next_event, reader_events, reader_for, XmlEvent};
use crate::prop::{
    prop_root_view, MultiStatus, MultiStatusResponse, MultiStatusResponseView, MultiStatusView,
    PropStat, PropStatStatus, PropStatView, UnknownStatus,
};
use crate::status::{parse_prop_stat_code, spec_classify};
use crate::xml::{
    lemma_add_child_at, lemma_path_valid_prefix, lemma_set_text_at, lemma_xml_views, path_valid,
    spec_add_child_at, spec_child_count, spec_node_at, spec_set_text_at, spec_tag_of, ContentView,
    TagView, Xml, XmlTag, XmlView,
};

verus! {

/// Why a parse failed: the tokenizer rejected the markup or the
/// document was left unbalanced, or no `multistatus` root was ever
/// seen.
#[derive(Debug, Clone, PartialEq, Eq, Structural)]
pub enum ParseError {
    MalformedXml,
    NoContent,
}

/// Whether a tag carries the DAV prefix `d` and the given local name.
pub open spec fn is_dav(t: TagView, local: Seq<char>) -> bool {
    t.namespace == "d"@ && t.name == local
}

/// The envelope state between two events: the partially built
/// document, the group being filled, the staged status outcome, the
/// flat tag path used to attribute text, and the path of the open
/// generic node inside the current group's property tree.
#[verifier::ext_equal]
pub struct StateView {
    pub multi_status: Option<MultiStatusView>,
    pub response: Option<MultiStatusResponseView>,
    pub propstat: Option<PropStatView>,
    pub propstat_status: Option<PropStatStatus>,
    pub stack: Seq<TagView>,
    pub open_path: Option<Seq<usize>>,
}

/// The state before any event: nothing open, nothing staged.
pub open spec fn init_state() -> StateView {
    StateView {
        multi_status: None,
        response: None,
        propstat: None,
        propstat_status: None,
        stack: Seq::empty(),
        open_path: None,
    }
}

/// The open generic path, when there is one, addresses a node of the
/// open group's property tree, and counts within machine bounds.
pub open spec fn state_wf(s: StateView) -> bool {
    s.open_path is Some ==> s.propstat is Some && path_valid(
        s.propstat->0.prop_list,
        s.open_path->0,
    )
}

/// What a start tag does to the state, apart from the tag-path push:
/// it opens the outermost scope the tag names and that is not open
/// yet; any other tag grows the generic tree when a generic node is
/// open, and is ignored otherwise.
pub open spec fn spec_start_core(s: StateView, t: TagView) -> StateView {
    if is_dav(t, "multistatus"@) && s.multi_status is None {
        StateView { multi_status: Some(MultiStatusView { responses: Seq::empty() }), ..s }
    } else if is_dav(t, "response"@) && s.response is None {
        StateView {
            response: Some(
                MultiStatusResponseView {
                    href: Seq::empty(),
                    prop_stats: Seq::empty(),
                    response_description: None,
                },
            ),
            ..s
        }
    } else if is_dav(t, "propstat"@) && s.propstat is None {
        StateView {
            propstat: Some(
                PropStatView {
                    status: PropStatStatus::Unknown(UnknownStatus::Unknown),
                    prop_list: prop_root_view(),
                },
            ),
            ..s
        }
    } else if is_dav(t, "status"@) && s.propstat_status is None {
        StateView {
            propstat_status: Some(PropStatStatus::Unknown(UnknownStatus::Unknown)),
            ..s
        }
    } else if is_dav(t, "response-description"@) {
        s
    } else if s.propstat is Some {
        let p = s.propstat->0;
        if is_dav(t, "prop"@) && p.prop_list.content is Empty {
            StateView {
                propstat: Some(
                    PropStatView {
                        prop_list: XmlView {
                            content: ContentView::Children(Seq::empty()),
                            ..p.prop_list
                        },
                        ..p
                    },
                ),
                open_path: Some(Seq::empty()),
                ..s
            }
        } else if s.open_path is Some {
            let path = s.open_path->0;
            let child = XmlView { tag: t, attributes: Seq::empty(), content: ContentView::Empty };
            let idx = spec_child_count(spec_node_at(p.prop_list, path));
            StateView {
                propstat: Some(
                    PropStatView { prop_list: spec_add_child_at(p.prop_list, path, child), ..p },
                ),
                open_path: Some(path.push(idx as usize)),
                ..s
            }
        } else {
            s
        }
    } else {
        s
    }
}

/// A start tag: the scope effect above, then the tag-path push.
pub open spec fn spec_start(s: StateView, t: TagView) -> StateView {
    let s1 = spec_start_core(s, t);
    StateView { stack: s1.stack.push(t), ..s1 }
}

/// What an end tag does to the state, apart from the tag-path pop: it
/// closes whichever scope the tag names, appending the finished part
/// to its parent; any other tag closes the open generic node when its
/// tag matches, and is ignored otherwise.
pub open spec fn spec_end_core(s: StateView, t: TagView) -> StateView {
    if is_dav(t, "response"@) {
        if s.multi_status is Some && s.response is Some {
            StateView {
                multi_status: Some(
                    MultiStatusView { responses: s.multi_status->0.responses.push(s.response->0) },
                ),
                response: None,
                ..s
            }
        } else {
            s
        }
    } else if is_dav(t, "propstat"@) {
        if s.response is Some && s.propstat is Some {
            StateView {
                response: Some(
                    MultiStatusResponseView {
                        prop_stats: s.response->0.prop_stats.push(s.propstat->0),
                        ..s.response->0
                    },
                ),
                propstat: None,
                open_path: None,
                ..s
            }
        } else {
            s
        }
    } else if is_dav(t, "status"@) {
        if s.propstat is Some && s.propstat_status is Some {
            StateView {
                propstat: Some(PropStatView { status: s.propstat_status->0, ..s.propstat->0 }),
                propstat_status: None,
                ..s
            }
        } else {
            s
        }
    } else if is_dav(t, "response-description"@) {
        s
    } else if s.propstat is Some && s.open_path is Some {
        let path = s.open_path->0;
        if spec_node_at(s.propstat->0.prop_list, path).tag == t {
            StateView {
                open_path: if path.len() == 0 {
                    None
                } else {
                    Some(path.drop_last())
                },
                ..s
            }
        } else {
            s
        }
    } else {
        s
    }
}

/// An end tag: the scope effect above, then the tag-path pop.
pub open spec fn spec_end(s: StateView, t: TagView) -> StateView {
    let s1 = spec_end_core(s, t);
    StateView {
        stack: if s1.stack.len() > 0 {
            s1.stack.drop_last()
        } else {
            s1.stack
        },
        ..s1
    }
}

/// What text does to the state, attributed by the innermost open tag:
/// under `d:href` it becomes the open response's location, under
/// `d:status` its classification is staged, under an open generic
/// node it becomes that node's text content.
pub open spec fn spec_text(s: StateView, txt: Seq<char>) -> StateView {
    if s.stack.len() == 0 {
        s
    } else {
        let top = s.stack.last();
        if is_dav(top, "href"@) {
            if s.response is Some {
                StateView {
                    response: Some(MultiStatusResponseView { href: txt, ..s.response->0 }),
                    ..s
                }
            } else {
                s
            }
        } else if is_dav(top, "status"@) {
            if s.response is Some {
                StateView { propstat_status: Some(spec_classify(txt)), ..s }
            } else {
                s
            }
        } else if s.propstat is Some && s.open_path is Some {
            StateView {
                propstat: Some(
                    PropStatView {
                        prop_list: spec_set_text_at(s.propstat->0.prop_list, s.open_path->0, txt),
                        ..s.propstat->0
                    },
                ),
                ..s
            }
        } else {
            s
        }
    }
}

/// One event's effect on the state.  A self-closing element acts as an
/// immediate start and end; the end-of-document and failure tokens are
/// handled by `spec_run`, not here.
pub open spec fn spec_step(s: StateView, ev: XmlEvent) -> StateView {
    match ev {
        XmlEvent::Start(raw) => spec_start(s, spec_tag_of(raw@)),
        XmlEvent::End(raw) => spec_end(s, spec_tag_of(raw@)),
        XmlEvent::Empty(raw) => spec_end(spec_start(s, spec_tag_of(raw@)), spec_tag_of(raw@)),
        XmlEvent::Text(txt) => spec_text(s, txt@),
        _ => s,
    }
}

/// The verdict at end of document: a still-open tag path means the
/// document was left unbalanced; otherwise the document parsed when a
/// `multistatus` root was ever opened, and was empty of content when
/// none was.
pub open spec fn spec_finish(s: StateView) -> Result<MultiStatusView, ParseError> {
    if s.stack.len() > 0 {
        Err(ParseError::MalformedXml)
    } else {
        match s.multi_status {
            Some(m) => Ok(m),
            None => Err(ParseError::NoContent),
        }
    }
}

/// Runs the machine over an event sequence: a failure token aborts the
/// parse, an end-of-document token (or the end of the sequence) yields
/// the verdict, every other event steps the state.
pub open spec fn spec_run(s: StateView, events: Seq<XmlEvent>) -> Result<
    MultiStatusView,
    ParseError,
>
    decreases events.len(),
{
    if events.len() == 0 {
        spec_finish(s)
    } else {
        match events.first() {
            XmlEvent::Bad => Err(ParseError::MalformedXml),
            XmlEvent::Eof => spec_finish(s),
            _ => spec_run(spec_step(s, events.first()), events.drop_first()),
        }
    }
}

/// The whole machine from the initial state.
pub open spec fn spec_parse(events: Seq<XmlEvent>) -> Result<MultiStatusView, ParseError> {
    spec_run(init_state(), events)
}

/// What parsing a whole document body yields: the machine run over the
/// body's event stream.
pub open spec fn spec_parse_document(body: Seq<char>) -> Result<MultiStatusView, ParseError> {
    spec_parse(doc_events(body))
}

/// The view of an executable parse result.
pub open spec fn result_view(r: Result<MultiStatus, ParseError>) -> Result<
    MultiStatusView,
    ParseError,
> {
    match r {
        Ok(m) => Ok(m@),
        Err(e) => Err(e),
    }
}

fn clone_tag(t: &XmlTag) -> (r: XmlTag)
    ensures
        r@ == t@,
{
    XmlTag::new(t.namespace.clone(), t.name.clone())
}

fn is_dav_exec(t: &XmlTag, local: &str) -> (r: bool)
    ensures
        r == is_dav(t@, local@),
{
    let d = String::from_str("d");
    let l = String::from_str(local);
    t.namespace.eq(&d) && t.name.eq(&l)
}

fn tag_eq(a: &XmlTag, b: &XmlTag) -> (r: bool)
    ensures
        r == (a@ == b@),
{
    let r = a.namespace.eq(&b.namespace) && a.name.eq(&b.name);
    proof {
        if r {
            assert(a@ =~= b@);
        }
    }
    r
}

/// The event-driven parser: the partially built document and the two
/// open-scope trackers, stepped one event at a time.
pub struct Parser {
    multi_status: Option<MultiStatus>,
    response: Option<MultiStatusResponse>,
    propstat: Option<PropStat>,
    propstat_status: Option<PropStatStatus>,
    stack: Vec<XmlTag>,
    open_path: Option<Vec<usize>>,
}

impl View for Parser {
    type V = StateView;

    closed spec fn view(&self) -> StateView {
        StateView {
            multi_status: match self.multi_status {
                Some(m) => Some(m@),
                None => None,
            },
            response: match self.response {
                Some(r) => Some(r@),
                None => None,
            },
            propstat: match self.propstat {
                Some(p) => Some(p@),
                None => None,
            },
            propstat_status: self.propstat_status,
            stack: self.stack@.map_values(|t: XmlTag| t@),
            open_path: match self.open_path {
                Some(p) => Some(p@),
                None => None,
            },
        }
    }
}

impl Parser {
    /// A parser in the initial state.
    pub fn new() -> (r: Self)
        ensures
            r@ == init_state(),
            state_wf(r@),
    {
        let r = Parser {
            multi_status: None,
            response: None,
            propstat: None,
            propstat_status: None,
            stack: Vec::new(),
            open_path: None,
        };
        proof {
            assert(r@ =~~= init_state());
        }
        r
    }

    fn handle_start(&mut self, t: XmlTag)
        requires
            state_wf(old(self)@),
        ensures
            final(self)@ == spec_start(old(self)@, t@),
            state_wf(final(self)@),
    {
        if is_dav_exec(&t, "multistatus") && self.multi_status.is_none() {
            self.multi_status = Some(MultiStatus { responses: Vec::new() });
        } else if is_dav_exec(&t, "response") && self.response.is_none() {
            self.response = Some(
                MultiStatusResponse {
                    href: String::new(),
                    prop_stats: Vec::new(),
                    response_description: None,
                },
            );
        } else if is_dav_exec(&t, "propstat") && self.propstat.is_none() {
            self.propstat = Some(PropStat::new(PropStatStatus::Unknown(UnknownStatus::Unknown)));
        } else if is_dav_exec(&t, "status") && self.propstat_status.is_none() {
            self.propstat_status = Some(PropStatStatus::Unknown(UnknownStatus::Unknown));
        } else if is_dav_exec(&t, "response-description") {
        } else if self.propstat.is_some() {
            let mut p = self.propstat.take().unwrap();
            if is_dav_exec(&t, "prop") && p.prop_list.is_empty() {
                p.prop_list.with_children(Vec::new());
                proof {
                    lemma_xml_views(Seq::<Xml>::empty());
                    assert(crate::xml::xml_views(Seq::<Xml>::empty()) =~= Seq::<XmlView>::empty());
                }
                self.propstat = Some(p);
                self.open_path = Some(Vec::new());
            } else if self.open_path.is_some() {
                let mut path = self.open_path.take().unwrap();
                proof {
                    assert(path@.skip(0) =~= path@);
                }
                let idx = p.prop_list.add_child_at(&path, 0, Xml::new(clone_tag(&t)));
                proof {
                    lemma_add_child_at(
                        old(self)@.propstat->0.prop_list,
                        path@,
                        XmlView {
                            tag: t@,
                            attributes: Seq::empty(),
                            content: ContentView::Empty,
                        },
                    );
                }
                path.push(idx);
                self.propstat = Some(p);
                self.open_path = Some(path);
            } else {
                self.propstat = Some(p);
            }
        }
        self.stack.push(t);
        proof {
            assert(final(self)@.stack =~~= spec_start(old(self)@, t@).stack);
            assert(final(self)@ =~~= spec_start(old(self)@, t@));
        }
    }

    fn handle_end(&mut self, t: XmlTag)
        requires
            state_wf(old(self)@),
        ensures
            final(self)@ == spec_end(old(self)@, t@),
            state_wf(final(self)@),
    {
        if is_dav_exec(&t, "response") {
            if self.multi_status.is_some() && self.response.is_some() {
                let r = self.response.take().unwrap();
                let mut m = self.multi_status.take().unwrap();
                m.responses.push(r);
                self.multi_status = Some(m);
            }
        } else if is_dav_exec(&t, "propstat") {
            if self.response.is_some() && self.propstat.is_some() {
                let p = self.propstat.take().unwrap();
                let mut r = self.response.take().unwrap();
                r.prop_stats.push(p);
                self.response = Some(r);
                self.open_path = None;
            }
        } else if is_dav_exec(&t, "status") {
            if self.propstat.is_some() && self.propstat_status.is_some() {
                let st = self.propstat_status.take().unwrap();
                let mut p = self.propstat.take().unwrap();
                p.status = st;
                self.propstat = Some(p);
            }
        } else if is_dav_exec(&t, "response-description") {
        } else if self.propstat.is_some() && self.open_path.is_some() {
            let p = self.propstat.take().unwrap();
            let mut path = self.open_path.take().unwrap();
            proof {
                assert(path@.skip(0) =~= path@);
            }
            let matched = match p.prop_list.lookup(&path, 0) {
                Some(n) => tag_eq(n.tag(), &t),
                None => false,
            };
            if matched {
                if path.len() == 0 {
                    self.open_path = None;
                } else {
                    proof {
                        lemma_path_valid_prefix(p.prop_list@, path@);
                    }
                    path.pop();
                    self.open_path = Some(path);
                }
            } else {
                self.open_path = Some(path);
            }
            self.propstat = Some(p);
        }
        if self.stack.len() > 0 {
            self.stack.pop();
            proof {
                assert(final(self)@.stack =~~= spec_end(old(self)@, t@).stack);
            }
        }
        proof {
            assert(final(self)@ =~~= spec_end(old(self)@, t@));
        }
    }

    fn handle_text(&mut self, txt: String)
        requires
            state_wf(old(self)@),
        ensures
            final(self)@ == spec_text(old(self)@, txt@),
            state_wf(final(self)@),
    {
        if self.stack.len() == 0 {
            return ;
        }
        let top_is_href = is_dav_exec(&self.stack[self.stack.len() - 1], "href");
        let top_is_status = is_dav_exec(&self.stack[self.stack.len() - 1], "status");
        if top_is_href {
            if self.response.is_some() {
                let mut r = self.response.take().unwrap();
                r.href = txt;
                self.response = Some(r);
            }
        } else if top_is_status {
            if self.response.is_some() {
                self.propstat_status = Some(parse_prop_stat_code(txt.as_str()));
            }
        } else if self.propstat.is_some() && self.open_path.is_some() {
            let mut p = self.propstat.take().unwrap();
            let path = self.open_path.take().unwrap();
            proof {
                assert(path@.skip(0) =~= path@);
                lemma_set_text_at(p.prop_list@, path@, txt@);
            }
            p.prop_list.set_text_at(&path, 0, txt);
            self.propstat = Some(p);
            self.open_path = Some(path);
        }
        proof {
            assert(final(self)@ =~~= spec_text(old(self)@, txt@));
        }
    }

    /// Applies one ordinary event; end-of-document and failure tokens
    /// are decided by the caller.
    fn apply(&mut self, ev: XmlEvent)
        requires
            state_wf(old(self)@),
            !(ev is Eof),
            !(ev is Bad),
        ensures
            final(self)@ == spec_step(old(self)@, ev),
            state_wf(final(self)@),
    {
        match ev {
            XmlEvent::Start(raw) => {
                let t = XmlTag::from_qualified_name(&raw);
                self.handle_start(t);
            },
            XmlEvent::End(raw) => {
                let t = XmlTag::from_qualified_name(&raw);
                self.handle_end(t);
            },
            XmlEvent::Empty(raw) => {
                let t = XmlTag::from_qualified_name(&raw);
                let t2 = clone_tag(&t);
                self.handle_start(t);
                self.handle_end(t2);
            },
            XmlEvent::Text(txt) => {
                self.handle_text(txt);
            },
            _ => {},
        }
    }

    /// The verdict at end of document, as `spec_finish` gives it.
    fn finish(self) -> (r: Result<MultiStatus, ParseError>)
        ensures
            result_view(r) == spec_finish(self@),
    {
        if self.stack.len() > 0 {
            Err(ParseError::MalformedXml)
        } else {
            match self.multi_status {
                Some(m) => Ok(m),
                None => Err(ParseError::NoContent),
            }
        }
    }
}

/// Runs the envelope state machine over an explicit event list and
/// returns exactly what the machine yields on it.  This is the whole
/// parsing logic with the tokenizer factored out: every event list
/// reaches it.
pub fn parse_events(events: Vec<XmlEvent>) -> (r: Result<MultiStatus, ParseError>)
    ensures
        result_view(r) == spec_parse(events@),
{
    let mut evs = events;
    let mut st = Parser::new();
    loop
        invariant
            state_wf(st@),
            spec_parse(events@) == spec_run(st@, evs@),
        decreases evs@.len(),
    {
        if evs.len() == 0 {
            return st.finish();
        }
        let ghost prev = evs@;
        let ev = evs.remove(0);
        proof {
            assert(evs@ =~= prev.drop_first());
        }
        match ev {
            XmlEvent::Bad => {
                return Err(ParseError::MalformedXml);
            },
            XmlEvent::Eof => {
                return st.finish();
            },
            _ => {
                st.apply(ev);
            },
        }
    }
}

/// Parses the body of a `PROPFIND` response into a multistatus
/// document: the body is tokenized and the event stream drives the
/// envelope state machine.  Yields `MalformedXml` on a tokenizer
/// failure or an unbalanced document, `NoContent` when no
/// `multistatus` root was ever seen, and the built document otherwise.
pub fn pase_propfind(body: String) -> (r: Result<MultiStatus, ParseError>)
    ensures
        result_view(r) == spec_parse_document(body@),
{
    let mut reader = reader_for(body.as_str());
    let mut st = Parser::new();
    loop
        invariant
            state_wf(st@),
            spec_parse_document(body@) == spec_run(st@, reader_events(reader)),
        decreases reader_events(reader).len(),
    {
        let ev = next_event(&mut reader);
        match ev {
            XmlEvent::Bad => {
                return Err(ParseError::MalformedXml);
            },
            XmlEvent::Eof => {
                return st.finish();
            },
            _ => {
                st.apply(ev);
            },
        }
    }
}

/// The machine state after stepping through `events`, terminators
/// aside.
pub open spec fn run_state(s: StateView, events: Seq<XmlEvent>) -> StateView
    decreases events.len(),
{
    if events.len() == 0 {
        s
    } else {
        run_state(spec_step(s, events.first()), events.drop_first())
    }
}

/// Whether a stream holds neither an end-of-document nor a failure
/// token, so that every event of it steps the machine.
pub open spec fn no_terminators(events: Seq<XmlEvent>) -> bool {
    forall|i: int|
        0 <= i < events.len() ==> !(#[trigger] events[i] is Eof) && !(events[i] is Bad)
}

/// Over a stream without terminators, the run is the verdict on the
/// folded state.
pub proof fn lemma_run_is_finish(s: StateView, events: Seq<XmlEvent>)
    requires
        no_terminators(events),
    ensures
        spec_run(s, events) == spec_finish(run_state(s, events)),
    decreases events.len(),
{
    if events.len() > 0 {
        assert(!(events[0] is Eof) && !(events[0] is Bad));
        lemma_run_is_finish(spec_step(s, events.first()), events.drop_first());
    }
}

/// Folding a concatenation folds the parts in order.
pub proof fn lemma_run_state_app(s: StateView, a: Seq<XmlEvent>, b: Seq<XmlEvent>)
    ensures
        run_state(s, a + b) == run_state(run_state(s, a), b),
    decreases a.len(),
{
    if a.len() == 0 {
        assert(a + b =~= b);
    } else {
        assert((a + b).first() == a.first());
        assert((a + b).drop_first() =~= a.drop_first() + b);
        lemma_run_state_app(spec_step(s, a.first()), a.drop_first(), b);
    }
}

/// How one event moves the tag path: a start deepens it by one, an
/// end shortens it by at most one, a self-closing element and text
/// leave it as it was.
pub proof fn lemma_step_stack(s: StateView, ev: XmlEvent)
    requires
        !(ev is Eof),
        !(ev is Bad),
    ensures
        ev is Start ==> spec_step(s, ev).stack.len() == s.stack.len() + 1,
        ev is End ==> spec_step(s, ev).stack.len() >= s.stack.len() - 1,
        !(ev is Start) && !(ev is End) ==> spec_step(s, ev).stack.len() == s.stack.len(),
{
}

/// How many start tokens a stream holds.
pub open spec fn start_count(events: Seq<XmlEvent>) -> int
    decreases events.len(),
{
    if events.len() == 0 {
        0
    } else {
        start_count(events.drop_first()) + if events.first() is Start {
            1int
        } else {
            0int
        }
    }
}

/// How many end tokens a stream holds.
pub open spec fn end_count(events: Seq<XmlEvent>) -> int
    decreases events.len(),
{
    if events.len() == 0 {
        0
    } else {
        end_count(events.drop_first()) + if events.first() is End {
            1int
        } else {
            0int
        }
    }
}

/// The tag path never ends shorter than the surplus of starts over
/// ends.
pub proof fn lemma_stack_lower_bound(s: StateView, events: Seq<XmlEvent>)
    requires
        no_terminators(events),
    ensures
        run_state(s, events).stack.len() >= s.stack.len() + start_count(events) - end_count(
            events,
        ),
    decreases events.len(),
{
    if events.len() > 0 {
        assert(!(events[0] is Eof) && !(events[0] is Bad));
        lemma_step_stack(s, events.first());
        lemma_stack_lower_bound(spec_step(s, events.first()), events.drop_first());
    }
}

/// A fully tokenized document with more element starts than ends is
/// left unbalanced and is rejected as malformed.
pub proof fn lemma_unbalanced_is_malformed(events: Seq<XmlEvent>)
    requires
        no_terminators(events),
        start_count(events) > end_count(events),
    ensures
        spec_parse(events) == Err::<MultiStatusView, ParseError>(ParseError::MalformedXml),
{
    lemma_stack_lower_bound(init_state(), events);
    lemma_run_is_finish(init_state(), events);
}

/// A tokenizer failure aborts the whole parse as malformed, whatever
/// came before it.
pub proof fn lemma_bad_aborts(s: StateView, events: Seq<XmlEvent>, i: int)
    requires
        0 <= i < events.len(),
        events[i] is Bad,
        forall|j: int| 0 <= j < i ==> !(#[trigger] events[j] is Eof) && !(events[j] is Bad),
    ensures
        spec_run(s, events) == Err::<MultiStatusView, ParseError>(ParseError::MalformedXml),
    decreases i,
{
    if i == 0 {
        assert(events.first() is Bad);
    } else {
        assert(!(events[0] is Eof) && !(events[0] is Bad));
        assert(events.drop_first()[i - 1] is Bad);
        assert forall|j: int| 0 <= j < i - 1 implies !(#[trigger] events.drop_first()[j] is Eof)
            && !(events.drop_first()[j] is Bad) by {
            assert(events.drop_first()[j] == events[j + 1]);
        }
        lemma_bad_aborts(spec_step(s, events.first()), events.drop_first(), i - 1);
    }
}

/// Whether an event can open the `multistatus` root.
pub open spec fn opens_multistatus(ev: XmlEvent) -> bool {
    match ev {
        XmlEvent::Start(raw) => is_dav(spec_tag_of(raw@), "multistatus"@),
        XmlEvent::Empty(raw) => is_dav(spec_tag_of(raw@), "multistatus"@),
        _ => false,
    }
}

proof fn lemma_step_keeps_no_multistatus(s: StateView, ev: XmlEvent)
    requires
        s.multi_status is None,
        !opens_multistatus(ev),
        !(ev is Eof),
        !(ev is Bad),
    ensures
        spec_step(s, ev).multi_status is None,
{
}

/// A stream that never opens the `multistatus` root yields no
/// document: the verdict is an error.
pub proof fn lemma_no_multistatus_is_error(s: StateView, events: Seq<XmlEvent>)
    requires
        s.multi_status is None,
        forall|i: int| 0 <= i < events.len() ==> !opens_multistatus(#[trigger] events[i]),
    ensures
        spec_run(s, events) is Err,
    decreases events.len(),
{
    if events.len() > 0 {
        match events.first() {
            XmlEvent::Bad => {},
            XmlEvent::Eof => {},
            _ => {
                lemma_step_keeps_no_multistatus(s, events.first());
                assert forall|j: int|
                    0 <= j < events.drop_first().len() implies !opens_multistatus(
                    #[trigger] events.drop_first()[j],
                ) by {
                    assert(events.drop_first()[j] == events[j + 1]);
                }
                lemma_no_multistatus_is_error(spec_step(s, events.first()), events.drop_first());
            },
        }
    }
}

proof fn lemma_run_state_keeps_no_multistatus(s: StateView, events: Seq<XmlEvent>)
    requires
        s.multi_status is None,
        no_terminators(events),
        forall|i: int| 0 <= i < events.len() ==> !opens_multistatus(#[trigger] events[i]),
    ensures
        run_state(s, events).multi_status is None,
    decreases events.len(),
{
    if events.len() > 0 {
        assert(!(events[0] is Eof) && !(events[0] is Bad));
        lemma_step_keeps_no_multistatus(s, events.first());
        assert forall|j: int|
            0 <= j < events.drop_first().len() implies !opens_multistatus(
            #[trigger] events.drop_first()[j],
        ) by {
            assert(events.drop_first()[j] == events[j + 1]);
        }
        lemma_run_state_keeps_no_multistatus(spec_step(s, events.first()), events.drop_first());
    }
}

/// A balanced, fully tokenized document that never opens the
/// `multistatus` root yields exactly `NoContent`; so does the empty
/// stream of an empty body.
pub proof fn lemma_no_multistatus_no_content(events: Seq<XmlEvent>)
    requires
        no_terminators(events),
        forall|i: int| 0 <= i < events.len() ==> !opens_multistatus(#[trigger] events[i]),
        run_state(init_state(), events).stack.len() == 0,
    ensures
        spec_parse(events) == Err::<MultiStatusView, ParseError>(ParseError::NoContent),
{
    lemma_run_is_finish(init_state(), events);
    lemma_run_state_keeps_no_multistatus(init_state(), events);
}

/// Whether an event can close the open `response` scope.
pub open spec fn closes_response(ev: XmlEvent) -> bool {
    match ev {
        XmlEvent::End(raw) => is_dav(spec_tag_of(raw@), "response"@),
        XmlEvent::Empty(raw) => is_dav(spec_tag_of(raw@), "response"@),
        _ => false,
    }
}

/// What counts as the interior of one `response` element: fully
/// tokenized, well nested, and never closing the `response` scope
/// itself.  Any property groups, status lines and property trees
/// whatever are such interiors.
pub open spec fn interior_ok(b: Seq<XmlEvent>) -> bool {
    &&& no_terminators(b)
    &&& forall|i: int| 0 <= i < b.len() ==> !closes_response(#[trigger] b[i])
    &&& start_count(b) == end_count(b)
    &&& forall|k: int| 0 <= k <= b.len() ==> end_count(#[trigger] b.take(k)) <= start_count(b.take(k))
}

proof fn lemma_counts_take_step(b: Seq<XmlEvent>, k: int)
    requires
        0 <= k < b.len(),
    ensures
        start_count(b.take(k + 1)) == start_count(b.drop_first().take(k)) + if b[0] is Start {
            1int
        } else {
            0int
        },
        end_count(b.take(k + 1)) == end_count(b.drop_first().take(k)) + if b[0] is End {
            1int
        } else {
            0int
        },
{
    assert(b.take(k + 1).first() == b[0]);
    assert(b.take(k + 1).drop_first() =~= b.drop_first().take(k));
}

proof fn lemma_stack_dyck(s: StateView, b: Seq<XmlEvent>, base: Seq<TagView>)
    requires
        no_terminators(b),
        base.len() <= s.stack.len(),
        s.stack.take(base.len() as int) == base,
        forall|k: int|
            0 <= k <= b.len() ==> s.stack.len() - base.len() + start_count(#[trigger] b.take(k))
                - end_count(b.take(k)) >= 0,
    ensures
        run_state(s, b).stack.len() == s.stack.len() + start_count(b) - end_count(b),
        run_state(s, b).stack.take(base.len() as int) == base,
    decreases b.len(),
{
    if b.len() > 0 {
        let ev = b.first();
        assert(!(b[0] is Eof) && !(b[0] is Bad));
        lemma_step_stack(s, ev);
        let s1 = spec_step(s, ev);
        let b1 = b.drop_first();
        if ev is End {
            assert(b.take(1) =~= seq![ev]);
            assert(b.take(1).first() == ev);
            assert(b.take(1).drop_first() =~= Seq::<XmlEvent>::empty());
            assert(start_count(Seq::<XmlEvent>::empty()) == 0);
            assert(end_count(Seq::<XmlEvent>::empty()) == 0);
            assert(start_count(b.take(1)) == 0 && end_count(b.take(1)) == 1);
            assert(s.stack.len() - base.len() >= 1);
            assert(s1.stack.len() == s.stack.len() - 1);
            assert(s1.stack =~= s.stack.drop_last()) by {
                lemma_step_stack_end_shape(s, ev);
            }
            assert(s1.stack.take(base.len() as int) =~= base);
        } else if ev is Start {
            assert(s1.stack.len() == s.stack.len() + 1);
            assert(s1.stack =~= s.stack.push(step_pushed_tag(s, ev))) by {
                lemma_step_stack_start_shape(s, ev);
            }
            assert(s1.stack.take(base.len() as int) =~= base);
        } else {
            assert(s1.stack.len() == s.stack.len());
            assert(s1.stack == s.stack) by {
                lemma_step_stack_other_shape(s, ev);
            }
        }
        assert forall|k: int|
            0 <= k <= b1.len() implies s1.stack.len() - base.len() + start_count(
            #[trigger] b1.take(k),
        ) - end_count(b1.take(k)) >= 0 by {
            lemma_counts_take_step(b, k);
        }
        lemma_stack_dyck(s1, b1, base);
        assert(start_count(b) == start_count(b1) + if ev is Start {
            1int
        } else {
            0int
        });
        assert(end_count(b) == end_count(b1) + if ev is End {
            1int
        } else {
            0int
        });
    } else {
        assert(run_state(s, b) == s);
    }
}

/// The tag a start event pushes.
pub open spec fn step_pushed_tag(s: StateView, ev: XmlEvent) -> TagView {
    match ev {
        XmlEvent::Start(raw) => spec_tag_of(raw@),
        _ => s.stack.last(),
    }
}

proof fn lemma_step_stack_start_shape(s: StateView, ev: XmlEvent)
    requires
        ev is Start,
    ensures
        spec_step(s, ev).stack == s.stack.push(step_pushed_tag(s, ev)),
{
}

proof fn lemma_step_stack_end_shape(s: StateView, ev: XmlEvent)
    requires
        ev is End,
        s.stack.len() > 0,
    ensures
        spec_step(s, ev).stack == s.stack.drop_last(),
{
}

proof fn lemma_step_stack_other_shape(s: StateView, ev: XmlEvent)
    requires
        !(ev is Start),
        !(ev is End),
        !(ev is Eof),
        !(ev is Bad),
    ensures
        spec_step(s, ev).stack == s.stack,
{
    if ev is Empty {
        let s1 = spec_start(s, spec_tag_of(ev->Empty_0@));
        assert(s1.stack.len() > 0);
        assert(s1.stack.drop_last() =~= s.stack);
    }
}

proof fn lemma_step_keeps_interior(s: StateView, ev: XmlEvent)
    requires
        !(ev is Eof),
        !(ev is Bad),
        !closes_response(ev),
        s.multi_status is Some,
        s.response is Some,
    ensures
        spec_step(s, ev).multi_status == s.multi_status,
        spec_step(s, ev).response is Some,
{
}

proof fn lemma_interior_run(s: StateView, b: Seq<XmlEvent>)
    requires
        no_terminators(b),
        forall|i: int| 0 <= i < b.len() ==> !closes_response(#[trigger] b[i]),
        s.multi_status is Some,
        s.response is Some,
    ensures
        run_state(s, b).multi_status == s.multi_status,
        run_state(s, b).response is Some,
    decreases b.len(),
{
    if b.len() > 0 {
        assert(!(b[0] is Eof) && !(b[0] is Bad) && !closes_response(b[0]));
        lemma_step_keeps_interior(s, b.first());
        assert forall|i: int|
            0 <= i < b.drop_first().len() implies !closes_response(
            #[trigger] b.drop_first()[i],
        ) by {
            assert(b.drop_first()[i] == b[i + 1]);
        }
        lemma_interior_run(spec_step(s, b.first()), b.drop_first());
    }
}

/// Being inside the root with `n` entries collected: the root open,
/// no `response` element open, the tag path holding just the root.
pub open spec fn inside_root(s: StateView, ms_t: TagView, n: int) -> bool {
    &&& s.multi_status is Some
    &&& s.multi_status->0.responses.len() == n
    &&& s.response is None
    &&& s.stack =~= seq![ms_t]
}

proof fn lemma_one_response_element(s: StateView, ms_t: TagView, resp_raw: Vec<u8>, b: Seq<XmlEvent>, n: int)
    requires
        is_dav(spec_tag_of(resp_raw@), "response"@),
        inside_root(s, ms_t, n),
        interior_ok(b),
    ensures
        inside_root(
            run_state(s, seq![XmlEvent::Start(resp_raw)] + b + seq![XmlEvent::End(resp_raw)]),
            ms_t,
            n + 1,
        ),
{
    let resp_t = spec_tag_of(resp_raw@);
    let head = seq![XmlEvent::Start(resp_raw)];
    let tail = seq![XmlEvent::End(resp_raw)];
    lemma_run_state_app(s, head + b, tail);
    lemma_run_state_app(s, head, b);
    assert(head.drop_first() =~= Seq::<XmlEvent>::empty());
    assert(head.first() == XmlEvent::Start(resp_raw));
    let s1 = spec_step(s, XmlEvent::Start(resp_raw));
    assert(run_state(s1, Seq::<XmlEvent>::empty()) == s1);
    assert(run_state(s, head) == s1);
    assert(s1.response is Some && s1.multi_status == s.multi_status);
    assert(s1.stack == s.stack.push(resp_t));
    let s2 = run_state(s1, b);
    lemma_interior_run(s1, b);
    assert(s1.stack.take(s1.stack.len() as int) =~= s1.stack);
    lemma_stack_dyck(s1, b, s1.stack);
    assert(s2.stack.len() == s1.stack.len());
    assert(s2.stack.take(s1.stack.len() as int) =~= s2.stack);
    assert(s2.stack == s1.stack);
    assert(s2.stack.len() > 0);
    let s3 = spec_step(s2, XmlEvent::End(resp_raw));
    assert(tail.drop_first() =~= Seq::<XmlEvent>::empty());
    assert(tail.first() == XmlEvent::End(resp_raw));
    assert(run_state(s3, Seq::<XmlEvent>::empty()) == s3);
    assert(run_state(s2, tail) == s3);
    assert(s3.multi_status->0.responses.len() == n + 1);
    assert(s3.response is None);
    assert(s3.stack =~= seq![ms_t]) by {
        assert(s2.stack.drop_last() =~= s.stack);
    }
}

/// The interiors of a document's `response` elements, wrapped in
/// their start and end tags and laid end to end.
pub open spec fn wrapped_responses(resp_raw: Vec<u8>, bodies: Seq<Seq<XmlEvent>>) -> Seq<XmlEvent>
    decreases bodies.len(),
{
    if bodies.len() == 0 {
        Seq::empty()
    } else {
        wrapped_responses(resp_raw, bodies.drop_last()) + (seq![XmlEvent::Start(resp_raw)]
            + bodies.last() + seq![XmlEvent::End(resp_raw)])
    }
}

proof fn lemma_wrapped_responses_run(
    s: StateView,
    ms_t: TagView,
    resp_raw: Vec<u8>,
    bodies: Seq<Seq<XmlEvent>>,
    n: int,
)
    requires
        is_dav(spec_tag_of(resp_raw@), "response"@),
        inside_root(s, ms_t, n),
        forall|i: int| 0 <= i < bodies.len() ==> interior_ok(#[trigger] bodies[i]),
    ensures
        inside_root(run_state(s, wrapped_responses(resp_raw, bodies)), ms_t, n + bodies.len()),
    decreases bodies.len(),
{
    if bodies.len() > 0 {
        let dl = bodies.drop_last();
        lemma_wrapped_responses_run(s, ms_t, resp_raw, dl, n);
        lemma_run_state_app(
            s,
            wrapped_responses(resp_raw, dl),
            seq![XmlEvent::Start(resp_raw)] + bodies.last() + seq![XmlEvent::End(resp_raw)],
        );
        lemma_one_response_element(
            run_state(s, wrapped_responses(resp_raw, dl)),
            ms_t,
            resp_raw,
            bodies.last(),
            n + bodies.len() - 1,
        );
    }
}

proof fn lemma_wrapped_responses_no_terminators(resp_raw: Vec<u8>, bodies: Seq<Seq<XmlEvent>>)
    requires
        forall|i: int| 0 <= i < bodies.len() ==> interior_ok(#[trigger] bodies[i]),
    ensures
        no_terminators(wrapped_responses(resp_raw, bodies)),
    decreases bodies.len(),
{
    if bodies.len() > 0 {
        let a = wrapped_responses(resp_raw, bodies.drop_last());
        let b = seq![XmlEvent::Start(resp_raw)] + bodies.last() + seq![XmlEvent::End(resp_raw)];
        lemma_wrapped_responses_no_terminators(resp_raw, bodies.drop_last());
        assert(interior_ok(bodies.last()));
        assert forall|i: int|
            0 <= i < (a + b).len() implies !(#[trigger] (a + b)[i] is Eof) && !((a + b)[i]
            is Bad) by {
            if i < a.len() {
                assert((a + b)[i] == a[i]);
            } else {
                let j = i - a.len();
                assert((a + b)[i] == b[j]);
                if j == 0 {
                    assert(b[0] == XmlEvent::Start(resp_raw));
                } else if j < 1 + bodies.last().len() {
                    assert(b[j] == bodies.last()[j - 1]);
                } else {
                    assert(b[j] == XmlEvent::End(resp_raw));
                }
            }
        }
    }
}

/// The envelope shape law: a document of one `multistatus` root
/// holding `response` elements with any well-nested interior content
/// parses to exactly one entry per `response` element.
pub proof fn lemma_response_count_matches_document(
    ms_raw: Vec<u8>,
    resp_raw: Vec<u8>,
    bodies: Seq<Seq<XmlEvent>>,
)
    requires
        is_dav(spec_tag_of(ms_raw@), "multistatus"@),
        is_dav(spec_tag_of(resp_raw@), "response"@),
        forall|i: int| 0 <= i < bodies.len() ==> interior_ok(#[trigger] bodies[i]),
    ensures
        ({
            let events = seq![XmlEvent::Start(ms_raw)] + wrapped_responses(resp_raw, bodies)
                + seq![XmlEvent::End(ms_raw)];
            &&& spec_parse(events) is Ok
            &&& spec_parse(events)->Ok_0.responses.len() == bodies.len()
        }),
{
    reveal_strlit("multistatus");
    reveal_strlit("response");
    assert("multistatus"@.len() == 11);
    assert("response"@.len() == 8);
    assert("multistatus"@ != "response"@);
    let ms_t = spec_tag_of(ms_raw@);
    let head = seq![XmlEvent::Start(ms_raw)];
    let tail = seq![XmlEvent::End(ms_raw)];
    let rs_events = wrapped_responses(resp_raw, bodies);
    let events = head + rs_events + tail;
    lemma_wrapped_responses_no_terminators(resp_raw, bodies);
    assert(no_terminators(events)) by {
        assert forall|i: int|
            0 <= i < events.len() implies !(#[trigger] events[i] is Eof) && !(events[i] is Bad) by {
            if i == 0 {
                assert(events[i] == XmlEvent::Start(ms_raw));
            } else if i < 1 + rs_events.len() {
                assert(events[i] == rs_events[i - 1]);
            } else {
                assert(events[i] == XmlEvent::End(ms_raw));
            }
        }
    }
    lemma_run_is_finish(init_state(), events);
    lemma_run_state_app(init_state(), head + rs_events, tail);
    lemma_run_state_app(init_state(), head, rs_events);
    assert(head.drop_first() =~= Seq::<XmlEvent>::empty());
    assert(head.first() == XmlEvent::Start(ms_raw));
    let sa = spec_step(init_state(), XmlEvent::Start(ms_raw));
    assert(run_state(sa, Seq::<XmlEvent>::empty()) == sa);
    assert(run_state(init_state(), head) == sa);
    assert(inside_root(sa, ms_t, 0)) by {
        assert(init_state().stack.push(ms_t) =~= seq![ms_t]);
    }
    lemma_wrapped_responses_run(sa, ms_t, resp_raw, bodies, 0);
    let mid = run_state(sa, rs_events);
    assert(tail.drop_first() =~= Seq::<XmlEvent>::empty());
    let fin = spec_step(mid, XmlEvent::End(ms_raw));
    assert(tail.first() == XmlEvent::End(ms_raw));
    assert(run_state(fin, Seq::<XmlEvent>::empty()) == fin);
    assert(run_state(mid, tail) == fin);
    assert(run_state(init_state(), events) == run_state(init_state(), (head + rs_events) + tail));
    assert(run_state(init_state(), events) == fin);
    assert(fin.multi_status is Some && fin.multi_status->0.responses.len() == bodies.len());
    assert(fin.stack =~= Seq::<TagView>::empty()) by {
        assert(mid.stack.len() == 1);
        assert(mid.stack.drop_last() =~= Seq::<TagView>::empty());
    }
}

/// The event stream of one `response` element carrying one location.
pub open spec fn simple_response_events(resp_raw: Vec<u8>, href_raw: Vec<u8>, href: String) -> Seq<
    XmlEvent,
> {
    seq![
        XmlEvent::Start(resp_raw),
        XmlEvent::Start(href_raw),
        XmlEvent::Text(href),
        XmlEvent::End(href_raw),
        XmlEvent::End(resp_raw),
    ]
}

/// The event streams of a list of such `response` elements, in order.
pub open spec fn simple_responses_events(
    resp_raw: Vec<u8>,
    href_raw: Vec<u8>,
    hrefs: Seq<String>,
) -> Seq<XmlEvent>
    decreases hrefs.len(),
{
    if hrefs.len() == 0 {
        Seq::empty()
    } else {
        simple_responses_events(resp_raw, href_raw, hrefs.drop_last()) + simple_response_events(
            resp_raw,
            href_raw,
            hrefs.last(),
        )
    }
}

/// The event stream of a whole well-formed multistatus document: the
/// root element holding one `response` element per resource.
pub open spec fn simple_document_events(
    ms_raw: Vec<u8>,
    resp_raw: Vec<u8>,
    href_raw: Vec<u8>,
    hrefs: Seq<String>,
) -> Seq<XmlEvent> {
    seq![XmlEvent::Start(ms_raw)] + simple_responses_events(resp_raw, href_raw, hrefs) + seq![
        XmlEvent::End(ms_raw),
    ]
}

/// The entry such a `response` element parses to.
pub open spec fn simple_response_view(href: String) -> MultiStatusResponseView {
    MultiStatusResponseView {
        href: href@,
        prop_stats: Seq::empty(),
        response_description: None,
    }
}

/// The machine state inside the root element, between two `response`
/// elements, with `rs` already collected.
pub open spec fn simple_mid_state(ms_t: TagView, rs: Seq<MultiStatusResponseView>) -> StateView {
    StateView {
        multi_status: Some(MultiStatusView { responses: rs }),
        response: None,
        propstat: None,
        propstat_status: None,
        stack: seq![ms_t],
        open_path: None,
    }
}

proof fn lemma_simple_response_step(
    ms_t: TagView,
    rs: Seq<MultiStatusResponseView>,
    resp_raw: Vec<u8>,
    href_raw: Vec<u8>,
    href: String,
)
    requires
        is_dav(spec_tag_of(resp_raw@), "response"@),
        is_dav(spec_tag_of(href_raw@), "href"@),
    ensures
        run_state(simple_mid_state(ms_t, rs), simple_response_events(resp_raw, href_raw, href))
            == simple_mid_state(ms_t, rs.push(simple_response_view(href))),
{
    reveal_strlit("href");
    reveal_strlit("propstat");
    reveal_strlit("status");
    reveal_strlit("response");
    assert("href"@.len() == 4);
    assert("propstat"@.len() == 8);
    assert("status"@.len() == 6);
    assert("response"@.len() == 8);
    assert("href"@ != "propstat"@);
    assert("href"@ != "status"@);
    assert("href"@ != "response"@);
    let resp_t = spec_tag_of(resp_raw@);
    let href_t = spec_tag_of(href_raw@);
    let e0 = XmlEvent::Start(resp_raw);
    let e1 = XmlEvent::Start(href_raw);
    let e2 = XmlEvent::Text(href);
    let e3 = XmlEvent::End(href_raw);
    let e4 = XmlEvent::End(resp_raw);
    let evs = simple_response_events(resp_raw, href_raw, href);
    let s0 = simple_mid_state(ms_t, rs);
    let s1 = spec_step(s0, e0);
    let s2 = spec_step(s1, e1);
    let s3 = spec_step(s2, e2);
    let s4 = spec_step(s3, e3);
    let s5 = spec_step(s4, e4);
    assert(evs.first() == e0);
    assert(evs.drop_first() =~= seq![e1, e2, e3, e4]);
    assert(seq![e1, e2, e3, e4].drop_first() =~= seq![e2, e3, e4]);
    assert(seq![e2, e3, e4].drop_first() =~= seq![e3, e4]);
    assert(seq![e3, e4].drop_first() =~= seq![e4]);
    assert(seq![e4].drop_first() =~= Seq::<XmlEvent>::empty());
    assert(run_state(s0, evs) == run_state(s1, seq![e1, e2, e3, e4]));
    assert(run_state(s1, seq![e1, e2, e3, e4]) == run_state(s2, seq![e2, e3, e4]));
    assert(run_state(s2, seq![e2, e3, e4]) == run_state(s3, seq![e3, e4]));
    assert(run_state(s3, seq![e3, e4]) == run_state(s4, seq![e4]));
    assert(run_state(s4, seq![e4]) == run_state(s5, Seq::<XmlEvent>::empty()));
    assert(run_state(s0, evs) == s5);
    assert(s1 =~~= (StateView {
        response: Some(
            MultiStatusResponseView {
                href: Seq::empty(),
                prop_stats: Seq::empty(),
                response_description: None,
            },
        ),
        stack: s0.stack.push(resp_t),
        ..s0
    }));
    assert(s2 =~~= (StateView { stack: s1.stack.push(href_t), ..s1 }));
    assert(s2.stack.last() == href_t);
    assert(s3 =~~= (StateView {
        response: Some(
            MultiStatusResponseView {
                href: href@,
                prop_stats: Seq::empty(),
                response_description: None,
            },
        ),
        ..s2
    }));
    assert(s4 =~~= (StateView { stack: s3.stack.drop_last(), ..s3 }));
    assert(s4.stack =~= s1.stack);
    assert(s5.multi_status == Some(
        MultiStatusView { responses: rs.push(simple_response_view(href)) },
    ));
    assert(s5.stack =~= seq![ms_t]) by {
        assert(s4.stack.drop_last() =~= s0.stack);
    }
    assert(s5 =~~= simple_mid_state(ms_t, rs.push(simple_response_view(href))));
}

proof fn lemma_simple_responses_run(
    ms_t: TagView,
    resp_raw: Vec<u8>,
    href_raw: Vec<u8>,
    hrefs: Seq<String>,
    rs: Seq<MultiStatusResponseView>,
)
    requires
        is_dav(spec_tag_of(resp_raw@), "response"@),
        is_dav(spec_tag_of(href_raw@), "href"@),
    ensures
        run_state(simple_mid_state(ms_t, rs), simple_responses_events(resp_raw, href_raw, hrefs))
            == simple_mid_state(
            ms_t,
            rs + hrefs.map_values(|h: String| simple_response_view(h)),
        ),
    decreases hrefs.len(),
{
    let m = hrefs.map_values(|h: String| simple_response_view(h));
    if hrefs.len() == 0 {
        assert(rs + m =~= rs);
    } else {
        let dl = hrefs.drop_last();
        let mdl = dl.map_values(|h: String| simple_response_view(h));
        lemma_simple_responses_run(ms_t, resp_raw, href_raw, dl, rs);
        lemma_run_state_app(
            simple_mid_state(ms_t, rs),
            simple_responses_events(resp_raw, href_raw, dl),
            simple_response_events(resp_raw, href_raw, hrefs.last()),
        );
        lemma_simple_response_step(ms_t, rs + mdl, resp_raw, href_raw, hrefs.last());
        assert((rs + mdl).push(simple_response_view(hrefs.last())) =~= rs + m);
    }
}

proof fn lemma_simple_responses_no_terminators(
    resp_raw: Vec<u8>,
    href_raw: Vec<u8>,
    hrefs: Seq<String>,
)
    ensures
        no_terminators(simple_responses_events(resp_raw, href_raw, hrefs)),
    decreases hrefs.len(),
{
    if hrefs.len() > 0 {
        let a = simple_responses_events(resp_raw, href_raw, hrefs.drop_last());
        let b = simple_response_events(resp_raw, href_raw, hrefs.last());
        lemma_simple_responses_no_terminators(resp_raw, href_raw, hrefs.drop_last());
        assert forall|i: int|
            0 <= i < (a + b).len() implies !(#[trigger] (a + b)[i] is Eof) && !((a + b)[i]
            is Bad) by {
            if i < a.len() {
                assert((a + b)[i] == a[i]);
            } else {
                assert((a + b)[i] == b[i - a.len()]);
            }
        }
    }
}

/// The shape law of the envelope: a well-formed multistatus document
/// with one `response` element per resource, each carrying its
/// location, parses to exactly one entry per `response` element, in
/// document order, each holding its location.
pub proof fn lemma_responses_match_document(
    ms_raw: Vec<u8>,
    resp_raw: Vec<u8>,
    href_raw: Vec<u8>,
    hrefs: Seq<String>,
)
    requires
        is_dav(spec_tag_of(ms_raw@), "multistatus"@),
        is_dav(spec_tag_of(resp_raw@), "response"@),
        is_dav(spec_tag_of(href_raw@), "href"@),
    ensures
        spec_parse(simple_document_events(ms_raw, resp_raw, href_raw, hrefs)) == Ok::<
            MultiStatusView,
            ParseError,
        >(MultiStatusView { responses: hrefs.map_values(|h: String| simple_response_view(h)) }),
        spec_parse(simple_document_events(ms_raw, resp_raw, href_raw, hrefs))->Ok_0.responses.len()
            == hrefs.len(),
{
    reveal_strlit("multistatus");
    reveal_strlit("response");
    reveal_strlit("propstat");
    reveal_strlit("status");
    assert("multistatus"@.len() == 11);
    assert("response"@.len() == 8);
    assert("propstat"@.len() == 8);
    assert("status"@.len() == 6);
    assert("multistatus"@ != "response"@);
    assert("multistatus"@ != "status"@);
    assert("multistatus"@ != "propstat"@) by {
        assert("multistatus"@[0] == 'm');
        assert("propstat"@[0] == 'p');
    }
    let ms_t = spec_tag_of(ms_raw@);
    let rs_events = simple_responses_events(resp_raw, href_raw, hrefs);
    let head = seq![XmlEvent::Start(ms_raw)];
    let tail = seq![XmlEvent::End(ms_raw)];
    let events = simple_document_events(ms_raw, resp_raw, href_raw, hrefs);
    assert(events =~= head + rs_events + tail);
    lemma_simple_responses_no_terminators(resp_raw, href_raw, hrefs);
    assert(no_terminators(events)) by {
        assert forall|i: int|
            0 <= i < events.len() implies !(#[trigger] events[i] is Eof) && !(events[i] is Bad) by {
            if i == 0 {
                assert(events[i] == XmlEvent::Start(ms_raw));
            } else if i < 1 + rs_events.len() {
                assert(events[i] == rs_events[i - 1]);
            } else {
                assert(events[i] == XmlEvent::End(ms_raw));
            }
        }
    }
    lemma_run_is_finish(init_state(), events);
    lemma_run_state_app(init_state(), head + rs_events, tail);
    lemma_run_state_app(init_state(), head, rs_events);
    assert(head.drop_first() =~= Seq::<XmlEvent>::empty());
    assert(head.first() == XmlEvent::Start(ms_raw));
    let sa = spec_step(init_state(), XmlEvent::Start(ms_raw));
    assert(run_state(init_state(), head) == run_state(sa, Seq::<XmlEvent>::empty()));
    assert(sa.stack =~= seq![ms_t]) by {
        assert(init_state().stack.push(ms_t) =~= seq![ms_t]);
    }
    assert(run_state(init_state(), head) =~~= simple_mid_state(ms_t, Seq::empty()));
    lemma_simple_responses_run(ms_t, resp_raw, href_raw, hrefs, Seq::empty());
    let m = hrefs.map_values(|h: String| simple_response_view(h));
    assert(Seq::empty() + m =~= m);
    let mid = simple_mid_state(ms_t, m);
    assert(tail.drop_first() =~= Seq::<XmlEvent>::empty());
    let fin = spec_step(mid, XmlEvent::End(ms_raw));
    assert(tail.first() == XmlEvent::End(ms_raw));
    assert(run_state(mid, tail) == run_state(fin, Seq::<XmlEvent>::empty()));
    assert(run_state(init_state(), events) == run_state(init_state(), (head + rs_events) + tail));
    assert(run_state(init_state(), head + rs_events) == simple_mid_state(ms_t, m));
    assert(run_state(init_state(), events) == fin);
    assert(fin.stack =~= Seq::<TagView>::empty()) by {
        assert(mid.stack.drop_last() =~= Seq::<TagView>::empty());
    }
    assert(fin.multi_status == Some(MultiStatusView { responses: m }));
    assert(spec_finish(fin) == Ok::<MultiStatusView, ParseError>(
        MultiStatusView { responses: m },
    ));
}

/// A self-closing element under an open generic node becomes a leaf
/// child there with empty content — not empty text — and the open
/// node, the envelope and the tag path stay as they were.
pub proof fn lemma_empty_element_leaf(s: StateView, raw: Vec<u8>)
    requires
        state_wf(s),
        s.propstat is Some,
        s.open_path is Some,
        !is_dav(spec_tag_of(raw@), "multistatus"@),
        !is_dav(spec_tag_of(raw@), "response"@),
        !is_dav(spec_tag_of(raw@), "propstat"@),
        !is_dav(spec_tag_of(raw@), "status"@),
        !is_dav(spec_tag_of(raw@), "response-description"@),
        !is_dav(spec_tag_of(raw@), "prop"@),
        spec_child_count(spec_node_at(s.propstat->0.prop_list, s.open_path->0)) <= usize::MAX,
    ensures
        ({
            let t = spec_tag_of(raw@);
            let p = s.propstat->0;
            let path = s.open_path->0;
            let leaf = XmlView { tag: t, attributes: Seq::empty(), content: ContentView::Empty };
            spec_step(s, XmlEvent::Empty(raw)) == StateView {
                propstat: Some(
                    PropStatView { prop_list: spec_add_child_at(p.prop_list, path, leaf), ..p },
                ),
                ..s
            }
        }),
{
    let t = spec_tag_of(raw@);
    let p = s.propstat->0;
    let path = s.open_path->0;
    let leaf = XmlView { tag: t, attributes: Seq::empty(), content: ContentView::Empty };
    let idx = spec_child_count(spec_node_at(p.prop_list, path));
    lemma_add_child_at(p.prop_list, path, leaf);
    let s1 = spec_start(s, t);
    assert(s1.propstat == Some(
        PropStatView { prop_list: spec_add_child_at(p.prop_list, path, leaf), ..p },
    ));
    assert(s1.open_path == Some(path.push(idx as usize)));
    let s2 = spec_end(s1, t);
    assert(spec_node_at(spec_add_child_at(p.prop_list, path, leaf), path.push(idx as usize))
        == leaf);
    assert(s2.open_path == Some(path)) by {
        assert(path.push(idx as usize).drop_last() =~= path);
    }
    assert(s2.stack =~= s.stack) by {
        assert(s1.stack == s.stack.push(t));
    }
    assert(s2 =~= StateView {
        propstat: Some(
            PropStatView { prop_list: spec_add_child_at(p.prop_list, path, leaf), ..p },
        ),
        ..s
    });
}

} // verus!
