use vstd::prelude::*;
use crate::xml::{Attribute, AttrView, ContentView, TagView, Xml, XmlTag, XmlView};

verus! {

/// Refinement of an HTTP status that matched no known code.
#[derive(Debug, Clone, PartialEq, Eq, Structural)]
pub enum UnknownStatus {
    Unknown,
    UnknownSuccess,
    UnknownClientError,
    UnknownServerError,
}

/// Outcome of the `status` line of one property group.
#[derive(Debug, Clone, PartialEq, Eq, Structural)]
pub enum PropStatStatus {
    Unknown(UnknownStatus),
    Okay,
    Unauthorized,
    Forbidden,
    NotFound,
}

/// A property request: which properties to ask for, and to what depth.
#[derive(Debug)]
pub struct PropFind {
    pub props: Vec<XmlTag>,
    pub depth: u8,
}

/// The requested properties, each as a self-closing element.
pub open spec fn spec_propfind_props(props: Seq<TagView>) -> Seq<char>
    decreases props.len(),
{
    if props.len() == 0 {
        Seq::empty()
    } else {
        spec_propfind_props(props.drop_last()) + "<"@ + crate::xml::spec_tag_full_name(
            props.last(),
        ) + " />"@
    }
}

/// The request body a `PropFind` serializes to: the fixed envelope
/// with the requested properties inside its `d:prop` element.
pub open spec fn spec_propfind_xml(props: Seq<TagView>) -> Seq<char> {
    "<d:propfind
              xmlns:d=\"DAV:\"
              xmlns:oc=\"http://owncloud.org/ns\"
              xmlns:nc=\"http://nextcloud.org/ns\"
              xmlns:ocs=\"http://open-collaboration-services.org/ns\">
              xmlns:ocm=\"http://open-cloud-mesh.org/ns\">
                <d:prop>"@ + spec_propfind_props(props) + "</d:prop>
            </d:propfind>"@
}

impl PropFind {
    /// The request body, as `spec_propfind_xml` defines it.
    pub fn propfind_xml(&self) -> (r: String)
        ensures
            r@ == spec_propfind_xml(self.props@.map_values(|t: XmlTag| t@)),
    {
        let n = self.props.len();
        let ghost pv = self.props@.map_values(|t: XmlTag| t@);
        let mut body = String::new();
        let mut i: usize = 0;
        while i < n
            invariant
                0 <= i <= n,
                n == self.props@.len(),
                pv == self.props@.map_values(|t: XmlTag| t@),
                pv.len() == n,
                body@ == spec_propfind_props(pv.take(i as int)),
            decreases n - i,
        {
            body.append("<");
            let full = self.props[i].full_name();
            body.append(full.as_str());
            body.append(" />");
            proof {
                assert(pv.take(i as int + 1).drop_last() =~= pv.take(i as int));
                assert(pv.take(i as int + 1).last() == pv[i as int]);
                assert(pv[i as int] == self.props@[i as int]@);
            }
            i = i + 1;
        }
        proof {
            assert(pv.take(n as int) =~= pv);
        }
        let mut r = String::from_str(
            "<d:propfind
              xmlns:d=\"DAV:\"
              xmlns:oc=\"http://owncloud.org/ns\"
              xmlns:nc=\"http://nextcloud.org/ns\"
              xmlns:ocs=\"http://open-collaboration-services.org/ns\">
              xmlns:ocm=\"http://open-cloud-mesh.org/ns\">
                <d:prop>",
        );
        r.append(body.as_str());
        r.append("</d:prop>
            </d:propfind>");
        r
    }
}

impl crate::xml::ToXml for PropFind {
    fn to_xml(&self) -> String {
        self.propfind_xml()
    }
}

/// A group of properties sharing one status outcome.
#[derive(Debug)]
pub struct PropStat {
    pub status: PropStatStatus,
    pub prop_list: Xml,
}

/// Mathematical model of a `PropStat`.
#[verifier::ext_equal]
pub struct PropStatView {
    pub status: PropStatStatus,
    pub prop_list: XmlView,
}

impl View for PropStat {
    type V = PropStatView;

    open spec fn view(&self) -> PropStatView {
        PropStatView { status: self.status, prop_list: self.prop_list@ }
    }
}

/// The view of the `d:prop` container element every property group
/// starts from: tagged `d:prop`, no attributes, empty content.
pub open spec fn prop_root_view() -> XmlView {
    XmlView {
        tag: TagView { namespace: "d"@, name: "prop"@ },
        attributes: Seq::<AttrView>::empty(),
        content: ContentView::Empty,
    }
}

impl PropStat {
    /// A fresh group with the given status and an empty `d:prop` root.
    pub fn new(status: PropStatStatus) -> (r: Self)
        ensures
            r@ == (PropStatView { status, prop_list: prop_root_view() }),
    {
        Self {
            status,
            prop_list: Xml::new(XmlTag::new(String::from_str("d"), String::from_str("prop"))),
        }
    }
}

/// The result for one resource: its location and its property groups.
#[derive(Debug)]
pub struct MultiStatusResponse {
    pub href: String,
    pub prop_stats: Vec<PropStat>,
    pub response_description: Option<String>,
}

/// Mathematical model of a `MultiStatusResponse`.
#[verifier::ext_equal]
pub struct MultiStatusResponseView {
    pub href: Seq<char>,
    pub prop_stats: Seq<PropStatView>,
    pub response_description: Option<Seq<char>>,
}

impl View for MultiStatusResponse {
    type V = MultiStatusResponseView;

    open spec fn view(&self) -> MultiStatusResponseView {
        MultiStatusResponseView {
            href: self.href@,
            prop_stats: self.prop_stats@.map_values(|p: PropStat| p@),
            response_description: match self.response_description {
                Some(d) => Some(d@),
                None => None,
            },
        }
    }
}

/// The whole parsed document: one entry per resource, in document order.
#[derive(Debug)]
pub struct MultiStatus {
    pub responses: Vec<MultiStatusResponse>,
}

/// Mathematical model of a `MultiStatus`.
#[verifier::ext_equal]
pub struct MultiStatusView {
    pub responses: Seq<MultiStatusResponseView>,
}

impl View for MultiStatus {
    type V = MultiStatusView;

    open spec fn view(&self) -> MultiStatusView {
        MultiStatusView { responses: self.responses@.map_values(|r: MultiStatusResponse| r@) }
    }
}

/// Outcome of a property update.
#[derive(Debug, Clone, PartialEq, Eq, Structural)]
pub enum PropPatchStatus {
    Unknown(UnknownStatus),
    Okay,
    Forbidden,
    Conflict,
    FailedDependency,
    InsufficientStorage,
}

/// A property update request: properties to set and properties to remove.
#[derive(Debug)]
pub struct PropPatch {
    pub set_props: Vec<Xml>,
    pub remove_props: Vec<XmlTag>,
}

/// Outcome of a collection creation.
#[derive(Debug, Clone, PartialEq, Eq, Structural)]
pub enum MkColStatus {
    Unknown(UnknownStatus),
    Created,
    Forbidden,
    MethodNotAllowed,
    Conflict,
    UnsupportedMediaType,
    InsufficientStorage,
}

} // verus!
