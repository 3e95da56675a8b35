use vstd::prelude::*;

verus! {

/// A qualified XML name, split into its namespace prefix and local name.
///
/// The namespace field holds the literal prefix found in the document
/// (for example `"d"`), not a resolved namespace URI.
#[derive(Debug)]
pub struct XmlTag {
    pub namespace: String,
    pub name: String,
}

/// Mathematical model of an `XmlTag`: both parts as character sequences.
#[verifier::ext_equal]
pub struct TagView {
    pub namespace: Seq<char>,
    pub name: Seq<char>,
}

impl View for XmlTag {
    type V = TagView;

    open spec fn view(&self) -> TagView {
        TagView { namespace: self.namespace@, name: self.name@ }
    }
}

/// What lossy text decoding yields for the given bytes: the decoded
/// characters when the bytes are valid text, the empty sequence
/// otherwise.  A function of the bytes alone.
pub uninterp spec fn utf8_or_empty(bytes: Seq<u8>) -> Seq<char>;

/// Relies on String::from_utf8: decodes the bytes when they are valid
/// text; this wrapper substitutes the empty string on failure, so the
/// whole result depends on the bytes alone.
#[verifier::external_body]
fn utf8_string_or_empty(bytes: Vec<u8>) -> (s: String)
    ensures
        s@ == utf8_or_empty(bytes@),
{
    match String::from_utf8(bytes) {
        Ok(s) => s,
        Err(_) => String::new(),
    }
}

/// First position at or after `i` holding the name separator `:`
/// (or the end of the bytes).
pub open spec fn colon_index(raw: Seq<u8>, i: int) -> int
    decreases raw.len() - i,
{
    if i < 0 || i >= raw.len() || raw[i] == 58 {
        i
    } else {
        colon_index(raw, i + 1)
    }
}

/// The tag a raw qualified name denotes: the part before the first
/// separator is the namespace prefix (absent separator means an empty
/// prefix), the rest is the local name; each part decodes lossily.
pub open spec fn spec_tag_of(raw: Seq<u8>) -> TagView {
    let k = colon_index(raw, 0);
    if k < raw.len() {
        TagView {
            namespace: utf8_or_empty(raw.subrange(0, k)),
            name: utf8_or_empty(raw.subrange(k + 1, raw.len() as int)),
        }
    } else {
        TagView { namespace: Seq::empty(), name: utf8_or_empty(raw) }
    }
}

fn bytes_range(raw: &Vec<u8>, from: usize, to: usize) -> (r: Vec<u8>)
    requires
        from <= to <= raw@.len(),
    ensures
        r@ == raw@.subrange(from as int, to as int),
{
    let mut r: Vec<u8> = Vec::new();
    let mut i = from;
    while i < to
        invariant
            from <= i <= to <= raw@.len(),
            r@ =~= raw@.subrange(from as int, i as int),
        decreases to - i,
    {
        r.push(raw[i]);
        proof {
            assert(r@ =~= raw@.subrange(from as int, i as int + 1));
        }
        i = i + 1;
    }
    proof {
        assert(r@ =~= raw@.subrange(from as int, to as int));
    }
    r
}

impl XmlTag {
    pub fn new(namespace: String, name: String) -> (r: Self)
        ensures
            r@ == (TagView { namespace: namespace@, name: name@ }),
    {
        Self { namespace, name }
    }

    /// Splits a raw qualified name on the first `:` and decodes both
    /// parts, as `spec_tag_of` defines it.  Never fails: a part that
    /// is not valid text degrades to the empty string.
    pub fn from_qualified_name(raw: &Vec<u8>) -> (t: XmlTag)
        ensures
            t@ == spec_tag_of(raw@),
    {
        let n = raw.len();
        let mut k: usize = 0;
        while k < n && raw[k] != 58
            invariant
                0 <= k <= n,
                n == raw@.len(),
                colon_index(raw@, 0) == colon_index(raw@, k as int),
            decreases n - k,
        {
            k = k + 1;
        }
        if k < n {
            let ns = utf8_string_or_empty(bytes_range(raw, 0, k));
            let nm = utf8_string_or_empty(bytes_range(raw, k + 1, n));
            proof {
                assert(spec_tag_of(raw@) == (TagView {
                    namespace: utf8_or_empty(raw@.subrange(0, k as int)),
                    name: utf8_or_empty(raw@.subrange(k as int + 1, raw@.len() as int)),
                }));
            }
            XmlTag::new(ns, nm)
        } else {
            let nm = utf8_string_or_empty(bytes_range(raw, 0, n));
            proof {
                assert(raw@.subrange(0, n as int) =~= raw@);
            }
            XmlTag::new(String::new(), nm)
        }
    }
}

/// One key/value attribute of an element.
#[derive(Debug)]
pub struct Attribute {
    pub key: String,
    pub value: String,
}

/// Mathematical model of an `Attribute`.
#[verifier::ext_equal]
pub struct AttrView {
    pub key: Seq<char>,
    pub value: Seq<char>,
}

impl View for Attribute {
    type V = AttrView;

    open spec fn view(&self) -> AttrView {
        AttrView { key: self.key@, value: self.value@ }
    }
}

impl Attribute {
    pub fn new(key: String, value: String) -> (r: Self)
        ensures
            r@ == (AttrView { key: key@, value: value@ }),
    {
        Self { key, value }
    }
}

/// What an element holds: nothing, text, or an ordered list of child
/// elements.  Exactly one variant at a time: setting text discards any
/// children and vice versa.
#[derive(Debug)]
pub enum XmlContent {
    Text(String),
    Xml(Vec<Xml>),
    Empty,
}

/// One element of a generic XML tree.  Children are owned by value; a
/// place inside the tree is addressed by a path of child indices from
/// the root, never by an address.
#[derive(Debug)]
pub struct Xml {
    tag: XmlTag,
    attributes: Vec<Attribute>,
    content: XmlContent,
}

/// Mathematical model of `XmlContent`.
#[verifier::ext_equal]
pub enum ContentView {
    Text(Seq<char>),
    Children(Seq<XmlView>),
    Empty,
}

/// Mathematical model of an `Xml` element.
#[verifier::ext_equal]
pub struct XmlView {
    pub tag: TagView,
    pub attributes: Seq<AttrView>,
    pub content: ContentView,
}

pub closed spec fn xml_view(x: Xml) -> XmlView
    decreases x,
{
    XmlView {
        tag: x.tag@,
        attributes: x.attributes@.map_values(|a: Attribute| a@),
        content: match x.content {
            XmlContent::Empty => ContentView::Empty,
            XmlContent::Text(t) => ContentView::Text(t@),
            XmlContent::Xml(cs) => ContentView::Children(xml_views(cs@)),
        },
    }
}

pub closed spec fn xml_views(s: Seq<Xml>) -> Seq<XmlView>
    decreases s,
{
    if s.len() == 0 {
        Seq::empty()
    } else {
        xml_views(s.drop_last()).push(xml_view(s.last()))
    }
}

impl View for Xml {
    type V = XmlView;

    open spec fn view(&self) -> XmlView {
        xml_view(*self)
    }
}

pub proof fn lemma_xml_views(s: Seq<Xml>)
    ensures
        xml_views(s).len() == s.len(),
        forall|i: int| 0 <= i < s.len() ==> xml_views(s)[i] == xml_view(s[i]),
    decreases s.len(),
{
    if s.len() > 0 {
        lemma_xml_views(s.drop_last());
    }
}

impl Xml {
    /// A fresh element with the given tag, no attributes and empty content.
    pub fn new(tag: XmlTag) -> (r: Self)
        ensures
            r@ == (XmlView {
                tag: tag@,
                attributes: Seq::empty(),
                content: ContentView::Empty,
            }),
    {
        Self { tag, attributes: Vec::new(), content: XmlContent::Empty }
    }

    /// Replaces the attribute list.
    pub fn with_attributes(&mut self, attributes: Vec<Attribute>)
        ensures
            final(self)@ == (XmlView {
                attributes: attributes@.map_values(|a: Attribute| a@),
                ..old(self)@
            }),
    {
        self.attributes = attributes;
    }

    /// Sets the content to text, discarding any children.
    pub fn with_text(&mut self, text: String)
        ensures
            final(self)@ == (XmlView { content: ContentView::Text(text@), ..old(self)@ }),
    {
        self.content = XmlContent::Text(text);
    }

    /// Sets the content to the given list of children, discarding any text.
    pub fn with_children(&mut self, children: Vec<Xml>)
        ensures
            final(self)@ == (XmlView {
                content: ContentView::Children(xml_views(children@)),
                ..old(self)@
            }),
    {
        self.content = XmlContent::Xml(children);
    }

    /// Appends one attribute.
    pub fn add_attribute(&mut self, attribute: Attribute)
        ensures
            final(self)@ == (XmlView {
                attributes: old(self)@.attributes.push(attribute@),
                ..old(self)@
            }),
    {
        self.attributes.push(attribute);
    }

    /// Takes the content out, leaving `Empty` behind.
    fn take_content(&mut self) -> (c: XmlContent)
        ensures
            c == old(self).content,
            final(self).tag == old(self).tag,
            final(self).attributes == old(self).attributes,
            final(self).content is Empty,
    {
        let mut c = XmlContent::Empty;
        core::mem::swap(&mut self.content, &mut c);
        c
    }

    /// Appends a child element, converting text or empty content into a
    /// child list first.  Returns the index the child was stored at.
    pub fn add_child(&mut self, child: Xml) -> (idx: usize)
        ensures
            final(self)@ == spec_append_child(old(self)@, child@),
            idx == spec_child_count(old(self)@),
    {
        let c = self.take_content();
        match c {
            XmlContent::Xml(mut cs) => {
                let idx = cs.len();
                cs.push(child);
                proof {
                    lemma_xml_views(old(self).content->Xml_0@);
                    assert(cs@.drop_last() =~= old(self).content->Xml_0@);
                    assert(cs@.last() == child);
                }
                self.content = XmlContent::Xml(cs);
                idx
            },
            _ => {
                let mut cs: Vec<Xml> = Vec::new();
                cs.push(child);
                proof {
                    lemma_xml_views(cs@);
                    assert(xml_views(cs@) =~= seq![xml_view(child)]);
                }
                self.content = XmlContent::Xml(cs);
                0
            },
        }
    }

    /// The text content, if the content is text.
    pub fn text(&self) -> (r: Option<&String>)
        ensures
            match r {
                Some(t) => self@.content == ContentView::Text(t@),
                None => !(self@.content is Text),
            },
    {
        match &self.content {
            XmlContent::Text(t) => Some(t),
            _ => None,
        }
    }

    /// The child list, if the content is a child list.
    pub fn children(&self) -> (r: Option<&Vec<Xml>>)
        ensures
            match r {
                Some(cs) => self@.content == ContentView::Children(xml_views(cs@)),
                None => !(self@.content is Children),
            },
    {
        match &self.content {
            XmlContent::Xml(cs) => Some(cs),
            _ => None,
        }
    }

    /// The children as a list of borrows; empty when the content is not
    /// a child list.
    pub fn children_vec(&self) -> (r: Vec<&Xml>)
        ensures
            match self@.content {
                ContentView::Children(cs) => r@.len() == cs.len()
                    && forall|i: int| 0 <= i < cs.len() ==> r@[i]@ == cs[i],
                _ => r@.len() == 0,
            },
    {
        match &self.content {
            XmlContent::Xml(cs) => {
                let mut r: Vec<&Xml> = Vec::new();
                let mut i: usize = 0;
                proof {
                    lemma_xml_views(cs@);
                }
                while i < cs.len()
                    invariant
                        i <= cs.len(),
                        r@.len() == i,
                        self@.content == ContentView::Children(xml_views(cs@)),
                        xml_views(cs@).len() == cs@.len(),
                        forall|j: int| 0 <= j < cs@.len() ==> xml_views(cs@)[j] == xml_view(cs@[j]),
                        forall|j: int| 0 <= j < i ==> r@[j]@ == xml_views(cs@)[j],
                    decreases cs.len() - i,
                {
                    r.push(&cs[i]);
                    i = i + 1;
                }
                r
            },
            _ => Vec::new(),
        }
    }

    /// The attribute list.
    pub fn attributes(&self) -> (r: &Vec<Attribute>)
        ensures
            r@.map_values(|a: Attribute| a@) == self@.attributes,
    {
        &self.attributes
    }

    /// The element's tag.
    pub fn tag(&self) -> (r: &XmlTag)
        ensures
            r@ == self@.tag,
    {
        &self.tag
    }

    /// True when the content is empty.
    pub fn is_empty(&self) -> (r: bool)
        ensures
            r == (self@.content is Empty),
    {
        match &self.content {
            XmlContent::Empty => true,
            _ => false,
        }
    }

    /// True when the content is text.
    pub fn is_text(&self) -> (r: bool)
        ensures
            r == (self@.content is Text),
    {
        match &self.content {
            XmlContent::Text(_) => true,
            _ => false,
        }
    }

    /// True when the content is a child list.
    pub fn is_xml(&self) -> (r: bool)
        ensures
            r == (self@.content is Children),
    {
        match &self.content {
            XmlContent::Xml(_) => true,
            _ => false,
        }
    }
}

/// How many children an element holds; text or empty content counts as none.
pub open spec fn spec_child_count(x: XmlView) -> nat {
    match x.content {
        ContentView::Children(cs) => cs.len(),
        _ => 0,
    }
}

/// The model of `Xml::add_child`: append to the child list, converting
/// text or empty content into a one-element list.
pub open spec fn spec_append_child(x: XmlView, child: XmlView) -> XmlView {
    match x.content {
        ContentView::Children(cs) => XmlView { content: ContentView::Children(cs.push(child)), ..x },
        _ => XmlView { content: ContentView::Children(seq![child]), ..x },
    }
}

/// Whether `path` addresses a node: every step must enter an existing
/// child of a node whose content is a child list.
pub open spec fn path_valid(x: XmlView, path: Seq<usize>) -> bool
    decreases path.len(),
{
    path.len() == 0 || {
        &&& x.content is Children
        &&& path[0] < x.content->Children_0.len()
        &&& path_valid(x.content->Children_0[path[0] as int], path.drop_first())
    }
}

/// The node addressed by `path` (meaningful under `path_valid`).
pub open spec fn spec_node_at(x: XmlView, path: Seq<usize>) -> XmlView
    decreases path.len(),
{
    if path.len() == 0 {
        x
    } else {
        match x.content {
            ContentView::Children(cs) => spec_node_at(cs[path[0] as int], path.drop_first()),
            _ => x,
        }
    }
}

/// The tree after appending `child` under the node addressed by `path`.
pub open spec fn spec_add_child_at(x: XmlView, path: Seq<usize>, child: XmlView) -> XmlView
    decreases path.len(),
{
    if path.len() == 0 {
        spec_append_child(x, child)
    } else {
        match x.content {
            ContentView::Children(cs) => XmlView {
                content: ContentView::Children(
                    cs.update(path[0] as int, spec_add_child_at(cs[path[0] as int], path.drop_first(), child)),
                ),
                ..x
            },
            _ => x,
        }
    }
}

/// The tree after setting the text of the node addressed by `path`.
pub open spec fn spec_set_text_at(x: XmlView, path: Seq<usize>, t: Seq<char>) -> XmlView
    decreases path.len(),
{
    if path.len() == 0 {
        XmlView { content: ContentView::Text(t), ..x }
    } else {
        match x.content {
            ContentView::Children(cs) => XmlView {
                content: ContentView::Children(
                    cs.update(path[0] as int, spec_set_text_at(cs[path[0] as int], path.drop_first(), t)),
                ),
                ..x
            },
            _ => x,
        }
    }
}

/// What escaping to backslash sequences yields for the given text;
/// a function of the text alone.
pub uninterp spec fn escape_default_of(s: Seq<char>) -> Seq<char>;

/// Relies on str::escape_default: maps each character to its
/// backslash-escaped form; the result depends on the text alone.
#[verifier::external_body]
fn escape_default_str(s: &str) -> (r: String)
    ensures
        r@ == escape_default_of(s@),
{
    s.escape_default().to_string()
}

/// The qualified form of a tag: prefix, separator, local name.
pub open spec fn spec_tag_full_name(t: TagView) -> Seq<char> {
    t.namespace + ":"@ + t.name
}

impl XmlTag {
    /// The qualified form of the tag, as `spec_tag_full_name` defines it.
    pub fn full_name(&self) -> (r: String)
        ensures
            r@ == spec_tag_full_name(self@),
    {
        let mut r = self.namespace.clone();
        r.append(":");
        r.append(self.name.as_str());
        r
    }
}

/// The textual form of one attribute: the escaped key, then the
/// quoted value.
pub open spec fn spec_attr_string(a: AttrView) -> Seq<char> {
    escape_default_of(a.key) + "=\""@ + a.value + "\""@
}

/// The attribute list joined with single spaces.
pub open spec fn spec_attrs_joined(attrs: Seq<AttrView>) -> Seq<char>
    decreases attrs.len(),
{
    if attrs.len() == 0 {
        Seq::empty()
    } else if attrs.len() == 1 {
        spec_attr_string(attrs[0])
    } else {
        spec_attrs_joined(attrs.drop_last()) + " "@ + spec_attr_string(attrs.last())
    }
}

impl Attribute {
    /// The textual form of the attribute, as `spec_attr_string`
    /// defines it.
    pub fn to_string(&self) -> (r: String)
        ensures
            r@ == spec_attr_string(self@),
    {
        let mut r = escape_default_str(self.key.as_str());
        r.append("=\"");
        r.append(self.value.as_str());
        r.append("\"");
        r
    }
}

/// The textual form of an element: its children or text between an
/// opening and a closing tag, or a self-closing tag when empty.
pub open spec fn spec_xml_string(x: XmlView) -> Seq<char>
    decreases x,
{
    let full = spec_tag_full_name(x.tag);
    let attrs = spec_attrs_joined(x.attributes);
    match x.content {
        ContentView::Text(t) => "<"@ + full + " "@ + attrs + ">"@ + t + "</"@ + full + ">"@,
        ContentView::Children(cs) => "<"@ + full + " "@ + attrs + ">"@ + spec_xmls_string(cs)
            + "</"@ + full + ">"@,
        ContentView::Empty => "<"@ + full + " "@ + attrs + " />"@,
    }
}

/// The textual forms of a child list, concatenated.
pub open spec fn spec_xmls_string(cs: Seq<XmlView>) -> Seq<char>
    decreases cs,
{
    if cs.len() == 0 {
        Seq::empty()
    } else {
        spec_xmls_string(cs.drop_last()) + spec_xml_string(cs.last())
    }
}

proof fn lemma_xmls_string_step(cs: Seq<XmlView>, i: int)
    requires
        0 <= i < cs.len(),
    ensures
        spec_xmls_string(cs.take(i + 1)) == spec_xmls_string(cs.take(i)) + spec_xml_string(cs[i]),
{
    assert(cs.take(i + 1).drop_last() =~= cs.take(i));
    assert(cs.take(i + 1).last() == cs[i]);
}

impl Xml {
    fn attrs_string(&self) -> (r: String)
        ensures
            r@ == spec_attrs_joined(self@.attributes),
    {
        let n = self.attributes.len();
        let mut r = String::new();
        let mut i: usize = 0;
        while i < n
            invariant
                0 <= i <= n,
                n == self.attributes@.len(),
                r@ == spec_attrs_joined(self@.attributes.take(i as int)),
                self@.attributes == self.attributes@.map_values(|a: Attribute| a@),
            decreases n - i,
        {
            if i > 0 {
                r.append(" ");
            }
            let a = &self.attributes[i];
            let s = a.to_string();
            r.append(s.as_str());
            proof {
                let m = self@.attributes;
                assert(m.take(i as int + 1).drop_last() =~= m.take(i as int));
                assert(m.take(i as int + 1).last() == m[i as int]);
                assert(m[i as int] == a@);
                if i == 0 {
                    assert(r@ =~= spec_attrs_joined(m.take(1)));
                }
            }
            i = i + 1;
        }
        proof {
            assert(self@.attributes.take(n as int) =~= self@.attributes);
        }
        r
    }

    /// The textual form of the element, as `spec_xml_string` defines
    /// it.
    pub fn xml_string(&self) -> (r: String)
        ensures
            r@ == spec_xml_string(self@),
        decreases self@,
    {
        let full = self.tag.full_name();
        let attrs = self.attrs_string();
        let mut r = String::from_str("<");
        r.append(full.as_str());
        match &self.content {
            XmlContent::Text(t) => {
                r.append(" ");
                r.append(attrs.as_str());
                r.append(">");
                r.append(t.as_str());
                r.append("</");
                r.append(full.as_str());
                r.append(">");
            },
            XmlContent::Xml(cs) => {
                r.append(" ");
                r.append(attrs.as_str());
                r.append(">");
                let n = cs.len();
                let ghost csv = xml_views(cs@);
                let ghost prefix = "<"@ + spec_tag_full_name(self@.tag) + " "@ + spec_attrs_joined(
                    self@.attributes,
                ) + ">"@;
                proof {
                    lemma_xml_views(cs@);
                }
                let mut i: usize = 0;
                while i < n
                    invariant
                        0 <= i <= n,
                        n == cs@.len(),
                        csv == xml_views(cs@),
                        csv.len() == n,
                        forall|j: int| 0 <= j < n ==> csv[j] == xml_view(cs@[j]),
                        r@ == prefix + spec_xmls_string(csv.take(i as int)),
                        xml_view(*self).content == ContentView::Children(csv),
                    decreases n - i,
                {
                    proof {
                        let xv = xml_view(*self);
                        assert(decreases_to!(xv => xv.content));
                        assert(xv.content->Children_0 == csv);
                        assert(decreases_to!(xv.content => xv.content->Children_0));
                        assert(decreases_to!(csv => csv[i as int]));
                        assert(decreases_to!(xv => xml_view(cs@[i as int])));
                    }
                    let c = cs[i].xml_string();
                    r.append(c.as_str());
                    proof {
                        lemma_xmls_string_step(csv, i as int);
                    }
                    i = i + 1;
                }
                proof {
                    assert(csv.take(n as int) =~= csv);
                }
                r.append("</");
                r.append(full.as_str());
                r.append(">");
            },
            XmlContent::Empty => {
                r.append(" ");
                r.append(attrs.as_str());
                r.append(" />");
            },
        }
        r
    }
}

/// Serialization to document text.
pub trait ToXml {
    fn to_xml(&self) -> String;
}

impl ToXml for Xml {
    fn to_xml(&self) -> String {
        self.xml_string()
    }
}

/// A valid path stays valid when its last step is dropped.
pub proof fn lemma_path_valid_prefix(x: XmlView, path: Seq<usize>)
    requires
        path_valid(x, path),
        path.len() > 0,
    ensures
        path_valid(x, path.drop_last()),
    decreases path.len(),
{
    if path.len() == 1 {
        assert(path.drop_last() =~= Seq::<usize>::empty());
    } else {
        let cs = x.content->Children_0;
        lemma_path_valid_prefix(cs[path[0] as int], path.drop_first());
        assert(path.drop_last().drop_first() =~= path.drop_first().drop_last());
        assert(path.drop_last()[0] == path[0]);
    }
}

/// Appending under the node a valid path addresses keeps the path
/// valid, appends exactly there, and makes the appended child's own
/// position valid in the new tree.
pub proof fn lemma_add_child_at(x: XmlView, path: Seq<usize>, child: XmlView)
    requires
        path_valid(x, path),
        spec_child_count(spec_node_at(x, path)) <= usize::MAX,
    ensures
        path_valid(spec_add_child_at(x, path, child), path),
        spec_node_at(spec_add_child_at(x, path, child), path) == spec_append_child(
            spec_node_at(x, path),
            child,
        ),
        path_valid(
            spec_add_child_at(x, path, child),
            path.push(spec_child_count(spec_node_at(x, path)) as usize),
        ),
        spec_node_at(
            spec_add_child_at(x, path, child),
            path.push(spec_child_count(spec_node_at(x, path)) as usize),
        ) == child,
    decreases path.len(),
{
    let idx = spec_child_count(spec_node_at(x, path)) as usize;
    let y = spec_add_child_at(x, path, child);
    if path.len() == 0 {
        let p1 = path.push(idx);
        assert(p1.drop_first() =~= Seq::<usize>::empty());
        assert(p1[0] == idx);
        assert(spec_node_at(x, path) == x);
        match x.content {
            ContentView::Children(cs) => {
                assert(y.content->Children_0 == cs.push(child));
                assert(cs.push(child)[idx as int] == child);
                assert(path_valid(cs.push(child)[idx as int], p1.drop_first()));
                assert(path_valid(y, p1));
                assert(spec_node_at(child, p1.drop_first()) == child);
                assert(spec_node_at(y, p1) == child);
            },
            _ => {
                assert(y.content->Children_0 == seq![child]);
                assert(idx == 0);
                assert(seq![child][0] == child);
                assert(path_valid(seq![child][0], p1.drop_first()));
                assert(path_valid(y, p1));
                assert(spec_node_at(child, p1.drop_first()) == child);
                assert(spec_node_at(y, p1) == child);
            },
        }
    } else {
        let k = path[0] as int;
        let cs = x.content->Children_0;
        lemma_add_child_at(cs[k], path.drop_first(), child);
        assert(path.drop_first().push(idx) =~= path.push(idx).drop_first());
        assert(path.push(idx)[0] == path[0]);
        assert(y.content->Children_0[k] == spec_add_child_at(cs[k], path.drop_first(), child));
        assert(spec_node_at(y, path.push(idx)) == spec_node_at(
            spec_add_child_at(cs[k], path.drop_first(), child),
            path.drop_first().push(idx),
        ));
    }
}

/// Setting text under the node a valid path addresses keeps the path
/// valid, and sets the text exactly there.
pub proof fn lemma_set_text_at(x: XmlView, path: Seq<usize>, t: Seq<char>)
    requires
        path_valid(x, path),
    ensures
        path_valid(spec_set_text_at(x, path, t), path),
        spec_node_at(spec_set_text_at(x, path, t), path) == (XmlView {
            content: ContentView::Text(t),
            ..spec_node_at(x, path)
        }),
    decreases path.len(),
{
    if path.len() > 0 {
        let k = path[0] as int;
        let cs = x.content->Children_0;
        lemma_set_text_at(cs[k], path.drop_first(), t);
    }
}

impl Xml {
    /// Appends `child` under the node addressed by `path[depth..]` and
    /// returns the index it was stored at under that node.
    pub fn add_child_at(&mut self, path: &Vec<usize>, depth: usize, child: Xml) -> (idx: usize)
        requires
            depth <= path@.len(),
            path_valid(old(self)@, path@.skip(depth as int)),
        ensures
            final(self)@ == spec_add_child_at(old(self)@, path@.skip(depth as int), child@),
            idx == spec_child_count(spec_node_at(old(self)@, path@.skip(depth as int))),
        decreases path@.len() - depth,
    {
        if depth == path.len() {
            proof {
                assert(path@.skip(depth as int) =~= Seq::<usize>::empty());
            }
            self.add_child(child)
        } else {
            let i = path[depth];
            proof {
                assert(path@.skip(depth as int).drop_first() =~= path@.skip(depth as int + 1));
                assert(path@.skip(depth as int)[0] == path@[depth as int]);
            }
            let c = self.take_content();
            match c {
                XmlContent::Xml(mut cs) => {
                    proof {
                        lemma_xml_views(cs@);
                    }
                    let mut node = cs.remove(i);
                    let idx = node.add_child_at(path, depth + 1, child);
                    cs.insert(i, node);
                    proof {
                        lemma_xml_views(cs@);
                        assert(xml_views(cs@) =~= xml_views(old(self).content->Xml_0@).update(
                            i as int,
                            spec_add_child_at(
                                xml_view(old(self).content->Xml_0@[i as int]),
                                path@.skip(depth as int + 1),
                                child@,
                            ),
                        ));
                    }
                    self.content = XmlContent::Xml(cs);
                    idx
                },
                _ => {
                    // unreachable under path_valid; restore and report index 0
                    self.content = c;
                    proof {
                        assert(false);
                    }
                    0
                },
            }
        }
    }

    /// Sets the text of the node addressed by `path[depth..]`.
    pub fn set_text_at(&mut self, path: &Vec<usize>, depth: usize, text: String)
        requires
            depth <= path@.len(),
            path_valid(old(self)@, path@.skip(depth as int)),
        ensures
            final(self)@ == spec_set_text_at(old(self)@, path@.skip(depth as int), text@),
        decreases path@.len() - depth,
    {
        if depth == path.len() {
            proof {
                assert(path@.skip(depth as int) =~= Seq::<usize>::empty());
            }
            self.with_text(text);
        } else {
            let i = path[depth];
            proof {
                assert(path@.skip(depth as int).drop_first() =~= path@.skip(depth as int + 1));
                assert(path@.skip(depth as int)[0] == path@[depth as int]);
            }
            let c = self.take_content();
            match c {
                XmlContent::Xml(mut cs) => {
                    proof {
                        lemma_xml_views(cs@);
                    }
                    let mut node = cs.remove(i);
                    node.set_text_at(path, depth + 1, text);
                    cs.insert(i, node);
                    proof {
                        lemma_xml_views(cs@);
                        assert(xml_views(cs@) =~= xml_views(old(self).content->Xml_0@).update(
                            i as int,
                            spec_set_text_at(
                                xml_view(old(self).content->Xml_0@[i as int]),
                                path@.skip(depth as int + 1),
                                text@,
                            ),
                        ));
                    }
                    self.content = XmlContent::Xml(cs);
                },
                _ => {
                    self.content = c;
                    proof {
                        assert(false);
                    }
                },
            }
        }
    }

    /// The node addressed by `path[depth..]`, or `None` when the path
    /// does not address a node.
    pub fn lookup(&self, path: &Vec<usize>, depth: usize) -> (r: Option<&Xml>)
        requires
            depth <= path@.len(),
        ensures
            match r {
                Some(n) => path_valid(self@, path@.skip(depth as int))
                    && n@ == spec_node_at(self@, path@.skip(depth as int)),
                None => !path_valid(self@, path@.skip(depth as int)),
            },
        decreases path@.len() - depth,
    {
        if depth == path.len() {
            proof {
                assert(path@.skip(depth as int) =~= Seq::<usize>::empty());
            }
            Some(self)
        } else {
            let i = path[depth];
            proof {
                assert(path@.skip(depth as int).drop_first() =~= path@.skip(depth as int + 1));
                assert(path@.skip(depth as int)[0] == path@[depth as int]);
            }
            match &self.content {
                XmlContent::Xml(cs) => {
                    proof {
                        lemma_xml_views(cs@);
                    }
                    if i < cs.len() {
                        cs[i].lookup(path, depth + 1)
                    } else {
                        None
                    }
                },
                _ => None,
            }
        }
    }
}

} // verus!
