use vstd::prelude::*;

verus! {

/// One token of the XML event stream.  Element names are the raw
/// qualified-name bytes as they stand in the document; text is already
/// unescaped.  `Other` stands for tokens the parser ignores (comments,
/// declarations, processing instructions, CDATA, DOCTYPE), `Eof` for
/// the end of the document and `Bad` for a tokenizer failure.
pub enum XmlEvent {
    Start(Vec<u8>),
    End(Vec<u8>),
    Empty(Vec<u8>),
    Text(String),
    Other,
    Eof,
    Bad,
}

#[verifier::external_type_specification]
#[verifier::external_body]
#[verifier::reject_recursive_types(B)]
pub struct ExReader<B>(quick_xml::Reader<B>);

/// The whole event stream that tokenizing `body` yields, in order,
/// whitespace-trimmed, up to and including the first `Eof` or `Bad`
/// token.  The stream is a function of the text alone.
pub uninterp spec fn doc_events(body: Seq<char>) -> Seq<XmlEvent>;

/// The part of its event stream a reader has not yet handed out.
pub uninterp spec fn reader_events(r: quick_xml::Reader<&[u8]>) -> Seq<XmlEvent>;

/// Relies on quick_xml::Reader::from_str and Config::trim_text: a
/// fresh reader over `body` with text trimming on, whose pending
/// events are exactly the event stream of `body`.
#[verifier::external_body]
pub fn reader_for<'a>(body: &'a str) -> (r: quick_xml::Reader<&'a [u8]>)
    ensures
        reader_events(r) == doc_events(body@),
{
    let mut r = quick_xml::Reader::from_str(body);
    r.trim_text(true);
    r
}

/// Relies on quick_xml::Reader::read_event, and on the event accessors
/// BytesStart::name, BytesEnd::name and BytesText::unescape, to hand
/// out the next pending event; a reader whose stream is exhausted
/// keeps reporting the end of the document.  A failed unescape is
/// handed out as empty text, a tokenizer error as `Bad`.
#[verifier::external_body]
pub fn next_event<'a>(r: &mut quick_xml::Reader<&'a [u8]>) -> (ev: XmlEvent)
    ensures
        reader_events(*old(r)).len() == 0 ==> ev == XmlEvent::Eof && reader_events(*final(r))
            == reader_events(*old(r)),
        reader_events(*old(r)).len() > 0 ==> ev == reader_events(*old(r)).first() && reader_events(
            *final(r),
        ) == reader_events(*old(r)).drop_first(),
{
    match r.read_event() {
        Err(_) => XmlEvent::Bad,
        Ok(quick_xml::events::Event::Start(e)) => XmlEvent::Start(e.name().into_inner().to_vec()),
        Ok(quick_xml::events::Event::End(e)) => XmlEvent::End(e.name().into_inner().to_vec()),
        Ok(quick_xml::events::Event::Empty(e)) => XmlEvent::Empty(e.name().into_inner().to_vec()),
        Ok(quick_xml::events::Event::Text(e)) => match e.unescape() {
            Ok(t) => XmlEvent::Text(t.into_owned()),
            Err(_) => XmlEvent::Text(String::new()),
        },
        Ok(quick_xml::events::Event::Eof) => XmlEvent::Eof,
        Ok(_) => XmlEvent::Other,
    }
}

} // verus!
