//! Tags: names under which updates are grouped.

use vstd::prelude::*;
use vstd::std_specs::cmp::PartialEqSpecImpl;
use crate::ordered::{text_lt, Ordered};
use crate::repository::Entity;
use crate::time::Timestamp;
use crate::update::UpdateRef;

pub mod repository;

pub use repository::TagRepo;

verus! {

#[derive(Debug)]
pub struct Tag {
    name: String,
}

impl Tag {
    pub closed spec fn view(&self) -> Seq<char> {
        self.name@
    }

    pub fn new(name: String) -> (tag: Tag)
        ensures
            tag@ == name@,
    {
        Tag { name }
    }

    pub fn name(&self) -> (name: &str)
        ensures
            name@ == self@,
    {
        self.name.as_str()
    }
}

impl Clone for Tag {
    fn clone(&self) -> (r: Tag)
        ensures
            r@ == self@,
    {
        Tag { name: self.name.clone() }
    }
}

impl PartialEq for Tag {
    fn eq(&self, other: &Tag) -> (r: bool) {
        self.name == other.name
    }
}

impl Eq for Tag {

}

impl PartialEqSpecImpl for Tag {
    open spec fn obeys_eq_spec() -> bool {
        true
    }

    open spec fn eq_spec(&self, other: &Tag) -> bool {
        self@ == other@
    }
}

/// Tags are ordered as their names are.
impl Ordered for Tag {
    type Key = Seq<char>;

    open spec fn key(&self) -> Seq<char> {
        self@
    }

    open spec fn before(a: Seq<char>, b: Seq<char>) -> bool {
        text_lt(a, b)
    }

    proof fn lemma_irreflexive(a: Seq<char>) {
        String::lemma_irreflexive(a);
    }

    proof fn lemma_transitive(a: Seq<char>, b: Seq<char>, c: Seq<char>) {
        String::lemma_transitive(a, b, c);
    }

    proof fn lemma_connected(a: Seq<char>, b: Seq<char>) {
        String::lemma_connected(a, b);
    }

    fn precedes(&self, other: &Tag) -> (r: bool) {
        self.name.precedes(&other.name)
    }
}

impl Entity for Tag {
    type WriteEvent = TagEvent;
}

/// What a write to a repository of tags gives rise to.
#[derive(Debug)]
pub enum TagEvent {
    /// An update was tagged.
    UpdateTagged { tag: Tag, update_ref: UpdateRef },
    /// A tag was used for the first time.
    TagCreated { tag: Tag },
}

pub ghost enum TagEventView {
    UpdateTagged { tag: Seq<char>, url: Seq<char>, path: Seq<Seq<char>>, timestamp: Timestamp },
    TagCreated { tag: Seq<char> },
}

impl TagEvent {
    /// The event as mathematical values: the name of the tag, and of the
    /// update the text of its URL, the components of its URL, and its
    /// timestamp.
    pub open spec fn view(&self) -> TagEventView {
        match self {
            TagEvent::UpdateTagged { tag, update_ref } => TagEventView::UpdateTagged {
                tag: tag@,
                url: update_ref.url@,
                path: update_ref.url.components(),
                timestamp: update_ref.timestamp,
            },
            TagEvent::TagCreated { tag } => TagEventView::TagCreated { tag: tag@ },
        }
    }

    pub fn tag_created(tag: Tag) -> (e: TagEvent)
        ensures
            e@ == (TagEventView::TagCreated { tag: tag@ }),
    {
        TagEvent::TagCreated { tag }
    }

    pub fn update_tagged(tag: Tag, update_ref: &UpdateRef) -> (e: TagEvent)
        ensures
            e@ == (TagEventView::UpdateTagged {
                tag: tag@,
                url: update_ref.url@,
                path: update_ref.url.components(),
                timestamp: update_ref.timestamp,
            }),
    {
        TagEvent::UpdateTagged { tag, update_ref: update_ref.clone() }
    }

    /// Whether both tell the same of the same tag, and of the same URL at
    /// the same instant.
    pub open spec fn same_as(&self, other: &TagEvent) -> bool {
        match (*self, *other) {
            (
                TagEvent::UpdateTagged { tag: a, update_ref: r },
                TagEvent::UpdateTagged { tag: b, update_ref: s },
            ) => a@ == b@ && r.url@ == s.url@ && r.timestamp.instant() == s.timestamp.instant(),
            (TagEvent::TagCreated { tag: a }, TagEvent::TagCreated { tag: b }) => a@ == b@,
            _ => false,
        }
    }
}

impl PartialEq for TagEvent {
    fn eq(&self, other: &TagEvent) -> (r: bool) {
        match (self, other) {
            (
                TagEvent::UpdateTagged { tag: a, update_ref: r },
                TagEvent::UpdateTagged { tag: b, update_ref: s },
            ) => a.name == b.name && r.url.same(&s.url) && r.timestamp == s.timestamp,
            (TagEvent::TagCreated { tag: a }, TagEvent::TagCreated { tag: b }) => a.name == b.name,
            _ => false,
        }
    }
}

impl Eq for TagEvent {

}

impl PartialEqSpecImpl for TagEvent {
    open spec fn obeys_eq_spec() -> bool {
        true
    }

    open spec fn eq_spec(&self, other: &TagEvent) -> bool {
        self.same_as(other)
    }
}

/// The views of the events of `events`, in order.
pub open spec fn tag_event_views(events: Seq<TagEvent>) -> Seq<TagEventView> {
    Seq::new(events.len(), |i: int| events[i]@)
}

} // verus!
