//! Documents: the versions of a URL's content over time.

use vstd::prelude::*;
use vstd::std_specs::cmp::PartialEqSpecImpl;
use vstd::string::StringExecFns;
use crate::repository::Entity;
use crate::time::Timestamp;
use crate::url::Url;

pub mod repository;

pub use repository::DocRepo;

verus! {

/// A document: what is published at one URL.
#[derive(Debug)]
pub struct Document {
    pub url: Url,
}

/// The content of a document as it was retrieved at a time.
#[derive(Debug)]
pub struct DocumentVersion {
    pub url: Url,
    pub timestamp: Timestamp,
}

impl DocumentVersion {
    pub open spec fn wf(&self) -> bool {
        self.url.wf() && self.timestamp.wf()
    }

    /// Whether this is the version of `url` at `timestamp`.
    pub open spec fn is(&self, url: Url, timestamp: Timestamp) -> bool {
        &&& self.url@ == url@
        &&& self.url.components() == url.components()
        &&& self.timestamp == timestamp
    }

    pub fn new(url: Url, timestamp: Timestamp) -> (v: DocumentVersion)
        ensures
            v.url == url,
            v.timestamp == timestamp,
    {
        DocumentVersion { url, timestamp }
    }

    pub fn url(&self) -> (url: &Url)
        ensures
            *url == self.url,
    {
        &self.url
    }

    pub fn timestamp(&self) -> (timestamp: &Timestamp)
        ensures
            *timestamp == self.timestamp,
    {
        &self.timestamp
    }

    /// A line that says when and where the version was retrieved.
    pub fn describe(&self) -> (line: String)
        requires
            self.wf(),
        ensures
            line@ == "Doc retrieved at "@ + self.timestamp.name() + " on "@ + self.url@,
    {
        let mut line = "Doc retrieved at ".to_owned();
        line.append(self.timestamp.to_rfc3339().as_str());
        line.append(" on ");
        line.append(self.url.as_str());
        line
    }
}

impl Clone for DocumentVersion {
    fn clone(&self) -> (r: DocumentVersion)
        ensures
            r.is(self.url, self.timestamp),
    {
        DocumentVersion { url: self.url.clone(), timestamp: self.timestamp }
    }
}

impl PartialEq for DocumentVersion {
    fn eq(&self, other: &DocumentVersion) -> (r: bool) {
        self.url.same(&other.url) && self.timestamp == other.timestamp
    }
}

impl Eq for DocumentVersion {

}

impl PartialEqSpecImpl for DocumentVersion {
    open spec fn obeys_eq_spec() -> bool {
        true
    }

    open spec fn eq_spec(&self, other: &DocumentVersion) -> bool {
        self.url@ == other.url@ && self.timestamp.instant() == other.timestamp.instant()
    }
}

impl PartialEq for Document {
    fn eq(&self, other: &Document) -> (r: bool) {
        self.url.same(&other.url)
    }
}

impl Eq for Document {

}

impl PartialEqSpecImpl for Document {
    open spec fn obeys_eq_spec() -> bool {
        true
    }

    open spec fn eq_spec(&self, other: &Document) -> bool {
        self.url@ == other.url@
    }
}

impl Entity for DocumentVersion {
    type WriteEvent = DocEvent;
}

/// What a write to a repository of documents gives rise to.
#[derive(Debug)]
pub enum DocEvent {
    /// The first version of a document was stored.
    Created { url: Url },
    /// A version was stored.
    Updated { url: Url, timestamp: Timestamp },
    /// A version was removed, since an earlier one has the same content.
    Deleted { url: Url, timestamp: Timestamp },
}

pub ghost enum DocEventView {
    Created { url: Seq<char>, path: Seq<Seq<char>> },
    Updated { url: Seq<char>, path: Seq<Seq<char>>, timestamp: Timestamp },
    Deleted { url: Seq<char>, path: Seq<Seq<char>>, timestamp: Timestamp },
}

impl DocEvent {
    /// The event as mathematical values: the text of the URL, the
    /// components of the URL, and the timestamp.
    pub open spec fn view(&self) -> DocEventView {
        match self {
            DocEvent::Created { url } => DocEventView::Created { url: url@, path: url.components() },
            DocEvent::Updated { url, timestamp } => DocEventView::Updated {
                url: url@,
                path: url.components(),
                timestamp: *timestamp,
            },
            DocEvent::Deleted { url, timestamp } => DocEventView::Deleted {
                url: url@,
                path: url.components(),
                timestamp: *timestamp,
            },
        }
    }

    pub fn created(doc: &DocumentVersion) -> (e: DocEvent)
        ensures
            e@ == (DocEventView::Created { url: doc.url@, path: doc.url.components() }),
    {
        DocEvent::Created { url: doc.url.clone() }
    }

    pub fn updated(doc: &DocumentVersion) -> (e: DocEvent)
        ensures
            e@ == (DocEventView::Updated {
                url: doc.url@,
                path: doc.url.components(),
                timestamp: doc.timestamp,
            }),
    {
        DocEvent::Updated { url: doc.url.clone(), timestamp: doc.timestamp }
    }

    pub fn deleted(doc: &DocumentVersion) -> (e: DocEvent)
        ensures
            e@ == (DocEventView::Deleted {
                url: doc.url@,
                path: doc.url.components(),
                timestamp: doc.timestamp,
            }),
    {
        DocEvent::Deleted { url: doc.url.clone(), timestamp: doc.timestamp }
    }

    /// Whether both tell the same of the same URL at the same instant.
    pub open spec fn same_as(&self, other: &DocEvent) -> bool {
        match (*self, *other) {
            (DocEvent::Created { url: a }, DocEvent::Created { url: b }) => a@ == b@,
            (
                DocEvent::Updated { url: a, timestamp: s },
                DocEvent::Updated { url: b, timestamp: t },
            ) => a@ == b@ && s.instant() == t.instant(),
            (
                DocEvent::Deleted { url: a, timestamp: s },
                DocEvent::Deleted { url: b, timestamp: t },
            ) => a@ == b@ && s.instant() == t.instant(),
            _ => false,
        }
    }
}

impl PartialEq for DocEvent {
    fn eq(&self, other: &DocEvent) -> (r: bool) {
        match (self, other) {
            (DocEvent::Created { url: a }, DocEvent::Created { url: b }) => a.same(b),
            (
                DocEvent::Updated { url: a, timestamp: s },
                DocEvent::Updated { url: b, timestamp: t },
            ) => a.same(b) && *s == *t,
            (
                DocEvent::Deleted { url: a, timestamp: s },
                DocEvent::Deleted { url: b, timestamp: t },
            ) => a.same(b) && *s == *t,
            _ => false,
        }
    }
}

impl Eq for DocEvent {

}

impl PartialEqSpecImpl for DocEvent {
    open spec fn obeys_eq_spec() -> bool {
        true
    }

    open spec fn eq_spec(&self, other: &DocEvent) -> bool {
        self.same_as(other)
    }
}

/// The views of the events of `events`, in order.
pub open spec fn doc_event_views(events: Seq<DocEvent>) -> Seq<DocEventView> {
    Seq::new(events.len(), |i: int| events[i]@)
}

} // verus!
