//! Base fragments of the layout's fragment tree: the tag that ties a
//! fragment to its node (none for anonymous fragments) and the flags a
//! node's kind of element gives it.
use vstd::prelude::*;

verus! {

/// A pseudo-element.
#[derive(Clone, Copy, PartialEq, Eq, Structural, Debug)]
pub enum PseudoElement {
    Before,
    After,
    Marker,
    ServoAnonymousBox,
    ServoAnonymousTable,
    ServoAnonymousTableCell,
    ServoAnonymousTableRow,
    Other,
}

/// The pseudo-elements a fragment stands for: the primary one and, inside
/// it, a secondary one.
#[derive(Clone, Copy, PartialEq, Eq, Structural, Debug)]
pub struct PseudoElementChain {
    pub primary: Option<PseudoElement>,
    pub secondary: Option<PseudoElement>,
}

impl PseudoElementChain {
    pub open spec fn innermost_spec(self) -> Option<PseudoElement> {
        match self.secondary {
            Some(s) => Some(s),
            None => self.primary,
        }
    }

    /// The innermost pseudo-element: the secondary one, else the primary.
    pub fn innermost(&self) -> (p: Option<PseudoElement>)
        ensures
            p == self.innermost_spec(),
    {
        match self.secondary {
            Some(s) => Some(s),
            None => self.primary,
        }
    }
}

/// What ties a fragment to its node: the node (by identity) and the
/// pseudo-elements.
#[derive(Clone, Copy, PartialEq, Eq, Structural, Debug)]
pub struct Tag {
    pub node: u64,
    pub pseudo_element_chain: PseudoElementChain,
}

/// The flags of a fragment.
#[derive(Clone, Copy, PartialEq, Eq, Structural, Debug)]
pub struct FragmentFlags {
    pub is_body_element_of_html_element_root: bool,
    pub is_br_element: bool,
    pub is_table_th_or_td_element: bool,
    pub is_root_element: bool,
}

impl FragmentFlags {
    pub open spec fn empty_spec() -> FragmentFlags {
        FragmentFlags {
            is_body_element_of_html_element_root: false,
            is_br_element: false,
            is_table_th_or_td_element: false,
            is_root_element: false,
        }
    }

    /// No flag set.
    pub fn empty() -> (f: FragmentFlags)
        ensures
            f == FragmentFlags::empty_spec(),
    {
        FragmentFlags {
            is_body_element_of_html_element_root: false,
            is_br_element: false,
            is_table_th_or_td_element: false,
            is_root_element: false,
        }
    }
}

/// The base of a fragment: its tag (none when anonymous) and flags.
#[derive(Clone, Copy, PartialEq, Eq, Structural, Debug)]
pub struct BaseFragment {
    pub tag: Option<Tag>,
    pub flags: FragmentFlags,
}

impl BaseFragment {
    /// An anonymous fragment: no tag, no flags.
    pub fn anonymous() -> (f: BaseFragment)
        ensures
            f.tag is None,
            f.flags == FragmentFlags::empty_spec(),
    {
        BaseFragment { tag: None, flags: FragmentFlags::empty() }
    }

    /// Whether the fragment is anonymous: it has no tag.
    pub fn is_anonymous(&self) -> (b: bool)
        ensures
            b == self.tag is None,
    {
        self.tag.is_none()
    }

    /// The fragment that `info` describes.
    pub fn from_info(info: BaseFragmentInfo) -> (f: BaseFragment)
        ensures
            f.tag == info.tag,
            f.flags == info.flags,
    {
        BaseFragment { tag: info.tag, flags: info.flags }
    }
}

/// What a new base fragment is made from.
#[derive(Clone, Copy, PartialEq, Eq, Structural, Debug)]
pub struct BaseFragmentInfo {
    pub tag: Option<Tag>,
    pub flags: FragmentFlags,
}

/// What making a fragment reads of an HTML element.
pub struct HtmlElementInfo {
    pub is_body_element_of_html_element_root: bool,
    pub local_name: String,
    pub is_root: bool,
}

/// What making a fragment reads of a layout node: its identity, its
/// pseudo-elements and, for an HTML element, the element.
pub struct LayoutNodeInfo {
    pub opaque_id: u64,
    pub pseudo_element_chain: PseudoElementChain,
    pub html_element: Option<HtmlElementInfo>,
}

/// Whether a fragment for these pseudo-elements is an anonymous box.
pub open spec fn is_anonymous_box(p: Option<PseudoElement>) -> bool {
    p == Some(PseudoElement::ServoAnonymousBox) || p == Some(PseudoElement::ServoAnonymousTable)
        || p == Some(PseudoElement::ServoAnonymousTableCell) || p == Some(
        PseudoElement::ServoAnonymousTableRow,
    )
}

/// The flags an HTML element gives its fragment: body of the root html
/// element; a `br`; a `table`, `th` or `td`; the root element.
pub open spec fn element_flags(e: Option<HtmlElementInfo>) -> FragmentFlags {
    match e {
        Some(el) => FragmentFlags {
            is_body_element_of_html_element_root: el.is_body_element_of_html_element_root,
            is_br_element: el.local_name@ == "br"@,
            is_table_th_or_td_element: el.local_name@ == "table"@ || el.local_name@ == "th"@
                || el.local_name@ == "td"@,
            is_root_element: el.is_root,
        },
        None => FragmentFlags::empty_spec(),
    }
}

impl BaseFragmentInfo {
    pub fn anonymous() -> (i: BaseFragmentInfo)
        ensures
            i.tag is None,
            i.flags == FragmentFlags::empty_spec(),
    {
        BaseFragmentInfo { tag: None, flags: FragmentFlags::empty() }
    }

    /// The information for a fragment of node `id`, without pseudo-elements.
    pub fn new_for_testing(id: u64) -> (i: BaseFragmentInfo)
        ensures
            i.tag == Some(Tag { node: id, pseudo_element_chain: PseudoElementChain { primary: None, secondary: None } }),
            i.flags == FragmentFlags::empty_spec(),
    {
        BaseFragmentInfo {
            tag: Some(
                Tag {
                    node: id,
                    pseudo_element_chain: PseudoElementChain { primary: None, secondary: None },
                },
            ),
            flags: FragmentFlags::empty(),
        }
    }

    /// The information for a fragment of a layout node: anonymous for an
    /// anonymous box; else tagged with the node and its pseudo-elements,
    /// with the flags of its element (see [`element_flags`]).
    pub fn from_node(node: &LayoutNodeInfo) -> (i: BaseFragmentInfo)
        ensures
            is_anonymous_box(node.pseudo_element_chain.innermost_spec()) ==> i.tag is None
                && i.flags == FragmentFlags::empty_spec(),
            !is_anonymous_box(node.pseudo_element_chain.innermost_spec()) ==> i.tag == Some(
                Tag { node: node.opaque_id, pseudo_element_chain: node.pseudo_element_chain },
            ) && i.flags == element_flags(node.html_element),
    {
        proof {
            reveal_strlit("br");
            reveal_strlit("table");
            reveal_strlit("th");
            reveal_strlit("td");
            assert("br"@[0] != "table"@[0]);
            assert("br"@[0] != "th"@[0]);
            assert("br"@[0] != "td"@[0]);
            assert("br"@ != "table"@);
            assert("br"@ != "th"@);
            assert("br"@ != "td"@);
        }
        let innermost = node.pseudo_element_chain.innermost();
        match innermost {
            Some(PseudoElement::ServoAnonymousBox) | Some(PseudoElement::ServoAnonymousTable)
            | Some(PseudoElement::ServoAnonymousTableCell) | Some(
                PseudoElement::ServoAnonymousTableRow,
            ) => {
                return BaseFragmentInfo::anonymous();
            },
            _ => {},
        }
        let mut flags = FragmentFlags::empty();
        match &node.html_element {
            Some(element) => {
                if element.is_body_element_of_html_element_root {
                    flags.is_body_element_of_html_element_root = true;
                }
                if crate::origin::string_is(&element.local_name, "br") {
                    flags.is_br_element = true;
                } else if crate::origin::string_is(&element.local_name, "table")
                    || crate::origin::string_is(&element.local_name, "th")
                    || crate::origin::string_is(&element.local_name, "td") {
                    flags.is_table_th_or_td_element = true;
                }
                if element.is_root {
                    flags.is_root_element = true;
                }
            },
            None => {},
        }
        BaseFragmentInfo {
            tag: Some(Tag { node: node.opaque_id, pseudo_element_chain: node.pseudo_element_chain }),
            flags,
        }
    }
}

/// A rectangle in app units (1/60 of a CSS pixel).
#[derive(Clone, Copy, PartialEq, Eq, Structural, Debug)]
pub struct PhysicalRect {
    pub x: i32,
    pub y: i32,
    pub width: i32,
    pub height: i32,
}

/// A fragment shared by the hoisted boxes of an absolutely positioned box:
/// none laid out yet, and the static position rectangle it had.
pub struct HoistedSharedFragment {
    pub fragment: Option<BaseFragment>,
    pub original_static_position_rect: PhysicalRect,
}

impl HoistedSharedFragment {
    pub fn new(original_static_position_rect: PhysicalRect) -> (h: HoistedSharedFragment)
        ensures
            h.fragment is None,
            h.original_static_position_rect == original_static_position_rect,
    {
        HoistedSharedFragment { fragment: None, original_static_position_rect }
    }
}

} // verus!
