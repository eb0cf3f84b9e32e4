//! The trail of links from the root of the site to the directory shown.

use crate::path::{encode, link_text};
use vstd::prelude::*;

verus! {

/// A label and the link behind it. An empty link is none: the label is
/// shown as text.
#[derive(Debug)]
pub struct SimpleLink {
    pub link: String,
    pub label: String,
}

/// A link as contracts see it.
pub struct SimpleLinkView {
    pub link: Seq<char>,
    pub label: Seq<char>,
}

impl View for SimpleLink {
    type V = SimpleLinkView;

    open spec fn view(&self) -> SimpleLinkView {
        SimpleLinkView { link: self.link@, label: self.label@ }
    }
}

impl DeepView for SimpleLink {
    type V = SimpleLinkView;

    open spec fn deep_view(&self) -> SimpleLinkView {
        self@
    }
}

/// The trail to the directory with these segments: one item for each
/// segment, from the outermost to the directory itself. Each is labelled
/// with its segment and links to the directory that the segments up to it
/// name, but for the last, which stands for the directory shown and has no
/// link.
pub open spec fn trail(segments: Seq<Seq<char>>) -> Seq<SimpleLinkView> {
    Seq::new(
        segments.len(),
        |i: int|
            SimpleLinkView {
                link: if i == segments.len() - 1 {
                    Seq::empty()
                } else {
                    link_text(segments.take(i + 1), true, true)
                },
                label: segments[i],
            },
    )
}

/// Builds the breadcrumb of the directory with these segments. The root,
/// which has no segments, has an empty one.
pub fn build_breadcrumb(segments: &Vec<String>) -> (breadcrumb: Vec<SimpleLink>)
    ensures
        breadcrumb.deep_view() == trail(segments.deep_view()),
{
    let n = segments.len();
    let ghost all = segments.deep_view();
    let mut breadcrumb: Vec<SimpleLink> = Vec::new();
    let mut parts: Vec<String> = Vec::new();
    let mut i: usize = 0;
    while i < n
        invariant
            i <= n,
            n == segments.len(),
            all == segments.deep_view(),
            parts.deep_view() == all.take(i as int),
            breadcrumb.len() == i,
            forall|j: int| 0 <= j < i ==> (#[trigger] breadcrumb[j])@ == trail(all)[j],
        decreases n - i,
    {
        let label = segments[i].clone();
        let ghost before = parts.deep_view();
        parts.push(segments[i].clone());
        assert(parts.deep_view() =~= before.push(segments[i as int]@));
        assert(parts.deep_view() =~= all.take(i + 1));
        let link = if i + 1 == n {
            String::new()
        } else {
            encode(&parts, true, true)
        };
        breadcrumb.push(SimpleLink { link, label });
        i += 1;
    }
    assert(breadcrumb.deep_view() =~= trail(all));
    breadcrumb
}

} // verus!
