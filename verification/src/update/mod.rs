//! Updates: what an editor says has changed in a document at a time.

use vstd::prelude::*;
use vstd::std_specs::cmp::PartialEqSpecImpl;
use vstd::string::StringExecFns;
use crate::ordered::{text_lt, Ordered};
use crate::repository::Entity;
use crate::stamped::ts_lt;
use crate::text::{chars_of, slice_string};
use crate::time::{Timestamp, TimestampError};
use crate::url::{Url, UrlError};

pub mod repository;

pub use repository::UpdateRepo;

verus! {

/// What names an update: the URL of the document, and the time.
#[derive(Debug)]
pub struct UpdateRef {
    pub url: Url,
    pub timestamp: Timestamp,
}

/// Why a text names no update.
#[derive(Debug)]
pub enum UpdateRefParseError {
    /// What follows the last `#` is no timestamp.
    ChronoParseError(TimestampError),
    /// What stands before the last `#` is no URL of a repository.
    UrlParseError(UrlError),
    /// The text holds no `#`.
    FragmentNotProvided(String),
}

/// The position of the last `c` in `s`, if it occurs.
pub fn find_last(s: &Vec<char>, c: char) -> (r: Option<usize>)
    ensures
        match r {
            Some(i) => i < s@.len() && s@[i as int] == c && !s@.skip(i + 1).contains(c),
            None => !s@.contains(c),
        },
{
    let mut i: usize = s.len();
    assert(s@.skip(s.len() as int) =~= Seq::<char>::empty());
    while i > 0
        invariant
            i <= s.len(),
            !s@.skip(i as int).contains(c),
        decreases i,
    {
        i -= 1;
        if s[i] == c {
            return Some(i);
        }
        assert(s@.skip(i as int) =~= seq![s@[i as int]] + s@.skip(i as int + 1));
    }
    assert(s@.skip(0) =~= s@);
    None
}

impl UpdateRef {
    pub open spec fn wf(&self) -> bool {
        self.url.wf() && self.timestamp.wf()
    }

    /// The text of the reference: the URL, a `#`, and the timestamp.
    pub open spec fn text(&self) -> Seq<char> {
        self.url@ + seq!['#'] + self.timestamp.name()
    }

    pub fn new(url: Url, timestamp: Timestamp) -> (r: UpdateRef)
        ensures
            r.url == url,
            r.timestamp == timestamp,
    {
        UpdateRef { url, timestamp }
    }

    /// Writes the reference as a text.
    pub fn to_text(&self) -> (out: String)
        requires
            self.wf(),
        ensures
            out@ == self.text(),
    {
        let mut out = self.url.as_str().to_owned();
        out.push('#');
        out.append(self.timestamp.to_rfc3339().as_str());
        assert(out@ =~= self.text());
        out
    }

    /// What reading a reference from `text` gives: an error where the
    /// text holds no `#`; else an error where what stands before the last
    /// `#` is no URL of a repository; else an error where what follows it
    /// is no timestamp; else the reference of that URL and timestamp.
    pub open spec fn reads_as(text: Seq<char>, r: Result<UpdateRef, UpdateRefParseError>) -> bool {
        match r {
            Err(UpdateRefParseError::FragmentNotProvided(given)) => !text.contains('#') && given@
                == text,
            Err(UpdateRefParseError::UrlParseError(_)) => text.contains('#') && !url_accepted(
                url_part(text),
            ),
            Err(UpdateRefParseError::ChronoParseError(_)) => text.contains('#') && url_accepted(
                url_part(text),
            ) && Timestamp::of_name(stamp_part(text)) is None,
            Ok(found) => {
                &&& text.contains('#')
                &&& found.wf()
                &&& url_accepted(url_part(text))
                &&& found.url.made_of(crate::url::parsed_url(url_part(text)).unwrap())
                &&& Timestamp::of_name(stamp_part(text)) == Some(found.timestamp)
            },
        }
    }

    /// Reads a reference from a text: what stands before the last `#` as
    /// the URL, what follows it as the timestamp.
    pub fn parse(text: &str) -> (r: Result<UpdateRef, UpdateRefParseError>)
        ensures
            UpdateRef::reads_as(text@, r),
    {
        let chars = chars_of(text);
        match find_last(&chars, '#') {
            None => Err(UpdateRefParseError::FragmentNotProvided(text.to_owned())),
            Some(at) => {
                proof {
                    lemma_last_index(text@, '#', at as int);
                }
                let url_text = slice_string(&chars, 0, at);
                let stamp_text = slice_string(&chars, at + 1, chars.len());
                match Url::parse(url_text.as_str()) {
                    Err(e) => Err(UpdateRefParseError::UrlParseError(e)),
                    Ok(url) => match Timestamp::parse(stamp_text.as_str()) {
                        Err(e) => Err(UpdateRefParseError::ChronoParseError(e)),
                        Ok(timestamp) => Ok(UpdateRef { url, timestamp }),
                    },
                }
            },
        }
    }
}

/// The position of the last `c` in `s`.
pub open spec fn last_index(s: Seq<char>, c: char) -> int
    decreases s.len(),
{
    if s.len() == 0 {
        -1
    } else if s.last() == c {
        s.len() - 1
    } else {
        last_index(s.drop_last(), c)
    }
}

pub proof fn lemma_last_index(s: Seq<char>, c: char, at: int)
    requires
        0 <= at < s.len(),
        s[at] == c,
        !s.skip(at + 1).contains(c),
    ensures
        last_index(s, c) == at,
    decreases s.len(),
{
    if s.last() == c {
        if at < s.len() - 1 {
            assert(s.skip(at + 1)[s.len() - 1 - (at + 1)] == c);
        }
    } else {
        let tail = s.skip(at + 1);
        let shorter = s.drop_last().skip(at + 1);
        assert(shorter =~= tail.drop_last());
        if shorter.contains(c) {
            let i = shorter.index_of(c);
            assert(tail[i] == c);
        }
        lemma_last_index(s.drop_last(), c, at);
    }
}

/// What stands before the last `#` of a text that holds one.
pub open spec fn url_part(text: Seq<char>) -> Seq<char> {
    text.subrange(0, last_index(text, '#'))
}

/// What follows the last `#` of a text that holds one.
pub open spec fn stamp_part(text: Seq<char>) -> Seq<char> {
    text.subrange(last_index(text, '#') + 1, text.len() as int)
}

/// Whether `text` is read as a URL that a repository accepts.
pub open spec fn url_accepted(text: Seq<char>) -> bool {
    crate::url::parsed_url(text) is Some && !crate::url::rejected(
        crate::url::parsed_url(text).unwrap(),
    )
}

impl Clone for UpdateRef {
    fn clone(&self) -> (r: UpdateRef)
        ensures
            r.url@ == self.url@,
            r.url.components() == self.url.components(),
            r.timestamp == self.timestamp,
    {
        UpdateRef { url: self.url.clone(), timestamp: self.timestamp }
    }
}

impl PartialEq for UpdateRef {
    fn eq(&self, other: &UpdateRef) -> (r: bool) {
        self.url.same(&other.url) && self.timestamp == other.timestamp
    }
}

impl Eq for UpdateRef {

}

impl PartialEqSpecImpl for UpdateRef {
    open spec fn obeys_eq_spec() -> bool {
        true
    }

    open spec fn eq_spec(&self, other: &UpdateRef) -> bool {
        self.url@ == other.url@ && self.timestamp.instant() == other.timestamp.instant()
    }
}

/// An update: its reference, and what it says has changed.
#[derive(Debug)]
pub struct Update {
    pub update_ref: UpdateRef,
    pub change: String,
}

impl Update {
    pub open spec fn wf(&self) -> bool {
        self.update_ref.wf()
    }

    /// Whether this is the update of `url` at `timestamp` that says `change`.
    pub open spec fn is(&self, url: Url, timestamp: Timestamp, change: Seq<char>) -> bool {
        &&& self.update_ref.url@ == url@
        &&& self.update_ref.url.components() == url.components()
        &&& self.update_ref.timestamp == timestamp
        &&& self.change@ == change
    }

    pub fn new(url: Url, timestamp: Timestamp, change: String) -> (r: Update)
        ensures
            r.update_ref.url == url,
            r.update_ref.timestamp == timestamp,
            r.change == change,
    {
        Update { update_ref: UpdateRef { url, timestamp }, change }
    }

    pub fn url(&self) -> (url: &Url)
        ensures
            *url == self.update_ref.url,
    {
        &self.update_ref.url
    }

    pub fn timestamp(&self) -> (timestamp: &Timestamp)
        ensures
            *timestamp == self.update_ref.timestamp,
    {
        &self.update_ref.timestamp
    }

    pub fn change(&self) -> (change: &str)
        ensures
            change@ == self.change@,
    {
        self.change.as_str()
    }

    pub fn update_ref(&self) -> (update_ref: &UpdateRef)
        ensures
            *update_ref == self.update_ref,
    {
        &self.update_ref
    }

    /// A line that says when and where the update was made.
    pub fn describe(&self) -> (line: String)
        requires
            self.wf(),
        ensures
            line@ == "Update at "@ + self.update_ref.timestamp.name() + " on "@
                + self.update_ref.url@,
    {
        let mut line = "Update at ".to_owned();
        line.append(self.update_ref.timestamp.to_rfc3339().as_str());
        line.append(" on ");
        line.append(self.update_ref.url.as_str());
        line
    }
}

impl PartialEq for Update {
    fn eq(&self, other: &Update) -> (r: bool) {
        self.update_ref.url.same(&other.update_ref.url) && self.update_ref.timestamp
            == other.update_ref.timestamp && self.change == other.change
    }
}

impl Eq for Update {

}

impl PartialEqSpecImpl for Update {
    open spec fn obeys_eq_spec() -> bool {
        true
    }

    open spec fn eq_spec(&self, other: &Update) -> bool {
        self.update_ref.url@ == other.update_ref.url@ && self.update_ref.timestamp.instant()
            == other.update_ref.timestamp.instant() && self.change@ == other.change@
    }
}

impl Entity for Update {
    type WriteEvent = UpdateEvent;
}

/// What a write to a repository of updates gives rise to.
#[derive(Debug)]
pub enum UpdateEvent {
    /// An update was stored.
    Added { url: Url, timestamp: Timestamp },
    /// The update that was stored is the latest of its document.
    New { url: Url, timestamp: Timestamp },
}

pub ghost enum UpdateEventView {
    Added { url: Seq<char>, path: Seq<Seq<char>>, timestamp: Timestamp },
    New { url: Seq<char>, path: Seq<Seq<char>>, timestamp: Timestamp },
}

impl UpdateEvent {
    /// The event as mathematical values: the text of the URL, the
    /// components of the URL, and the timestamp.
    pub open spec fn view(&self) -> UpdateEventView {
        match self {
            UpdateEvent::Added { url, timestamp } => UpdateEventView::Added {
                url: url@,
                path: url.components(),
                timestamp: *timestamp,
            },
            UpdateEvent::New { url, timestamp } => UpdateEventView::New {
                url: url@,
                path: url.components(),
                timestamp: *timestamp,
            },
        }
    }

    pub fn added(update: &Update) -> (e: UpdateEvent)
        ensures
            e@ == (UpdateEventView::Added {
                url: update.update_ref.url@,
                path: update.update_ref.url.components(),
                timestamp: update.update_ref.timestamp,
            }),
    {
        UpdateEvent::Added {
            url: update.update_ref.url.clone(),
            timestamp: update.update_ref.timestamp,
        }
    }

    pub fn new(update: &Update) -> (e: UpdateEvent)
        ensures
            e@ == (UpdateEventView::New {
                url: update.update_ref.url@,
                path: update.update_ref.url.components(),
                timestamp: update.update_ref.timestamp,
            }),
    {
        UpdateEvent::New {
            url: update.update_ref.url.clone(),
            timestamp: update.update_ref.timestamp,
        }
    }

    /// Whether both tell the same of the same URL at the same instant.
    pub open spec fn same_as(&self, other: &UpdateEvent) -> bool {
        match (*self, *other) {
            (
                UpdateEvent::Added { url: a, timestamp: s },
                UpdateEvent::Added { url: b, timestamp: t },
            ) => a@ == b@ && s.instant() == t.instant(),
            (
                UpdateEvent::New { url: a, timestamp: s },
                UpdateEvent::New { url: b, timestamp: t },
            ) => a@ == b@ && s.instant() == t.instant(),
            _ => false,
        }
    }
}

impl PartialEq for UpdateEvent {
    fn eq(&self, other: &UpdateEvent) -> (r: bool) {
        match (self, other) {
            (
                UpdateEvent::Added { url: a, timestamp: s },
                UpdateEvent::Added { url: b, timestamp: t },
            ) => a.same(b) && *s == *t,
            (
                UpdateEvent::New { url: a, timestamp: s },
                UpdateEvent::New { url: b, timestamp: t },
            ) => a.same(b) && *s == *t,
            _ => false,
        }
    }
}

impl Eq for UpdateEvent {

}

impl PartialEqSpecImpl for UpdateEvent {
    open spec fn obeys_eq_spec() -> bool {
        true
    }

    open spec fn eq_spec(&self, other: &UpdateEvent) -> bool {
        self.same_as(other)
    }
}

/// The views of the events of `events`, in order.
pub open spec fn update_event_views(events: Seq<UpdateEvent>) -> Seq<UpdateEventView> {
    Seq::new(events.len(), |i: int| events[i]@)
}

/// A reference to an update, ordered by URL and then by timestamp.
#[derive(Debug)]
pub struct UpdateRefByUrl(pub UpdateRef);

/// A reference to an update, ordered by timestamp and then by URL.
#[derive(Debug)]
pub struct UpdateRefByTimestamp(pub UpdateRef);

/// By URL, and by instant where the URLs are the same. References to one
/// URL at one instant are in neither order, whatever their offsets.
impl Ordered for UpdateRefByUrl {
    type Key = (Seq<char>, (int, int));

    open spec fn key(&self) -> (Seq<char>, (int, int)) {
        (self.0.url@, self.0.timestamp.instant())
    }

    open spec fn before(a: (Seq<char>, (int, int)), b: (Seq<char>, (int, int))) -> bool {
        text_lt(a.0, b.0) || (a.0 == b.0 && Timestamp::before(a.1, b.1))
    }

    proof fn lemma_irreflexive(a: (Seq<char>, (int, int))) {
        String::lemma_irreflexive(a.0);
    }

    proof fn lemma_transitive(
        a: (Seq<char>, (int, int)),
        b: (Seq<char>, (int, int)),
        c: (Seq<char>, (int, int)),
    ) {
        if text_lt(a.0, b.0) && text_lt(b.0, c.0) {
            String::lemma_transitive(a.0, b.0, c.0);
        }
    }

    proof fn lemma_connected(a: (Seq<char>, (int, int)), b: (Seq<char>, (int, int))) {
        String::lemma_connected(a.0, b.0);
    }

    fn precedes(&self, other: &UpdateRefByUrl) -> (r: bool) {
        if self.0.url.precedes(&other.0.url) {
            true
        } else if self.0.url.same(&other.0.url) {
            self.0.timestamp.is_earlier(&other.0.timestamp)
        } else {
            false
        }
    }
}

/// By instant, and by URL where the instants are the same, whatever the
/// offsets.
impl Ordered for UpdateRefByTimestamp {
    type Key = ((int, int), Seq<char>);

    open spec fn key(&self) -> ((int, int), Seq<char>) {
        (self.0.timestamp.instant(), self.0.url@)
    }

    open spec fn before(a: ((int, int), Seq<char>), b: ((int, int), Seq<char>)) -> bool {
        Timestamp::before(a.0, b.0) || (a.0 == b.0 && text_lt(a.1, b.1))
    }

    proof fn lemma_irreflexive(a: ((int, int), Seq<char>)) {
        String::lemma_irreflexive(a.1);
    }

    proof fn lemma_transitive(
        a: ((int, int), Seq<char>),
        b: ((int, int), Seq<char>),
        c: ((int, int), Seq<char>),
    ) {
        if text_lt(a.1, b.1) && text_lt(b.1, c.1) {
            String::lemma_transitive(a.1, b.1, c.1);
        }
    }

    proof fn lemma_connected(a: ((int, int), Seq<char>), b: ((int, int), Seq<char>)) {
        String::lemma_connected(a.1, b.1);
    }

    fn precedes(&self, other: &UpdateRefByTimestamp) -> (r: bool) {
        if self.0.timestamp.is_earlier(&other.0.timestamp) {
            true
        } else if self.0.timestamp.same_instant(&other.0.timestamp) {
            self.0.url.precedes(&other.0.url)
        } else {
            false
        }
    }
}

/// A reference is read back from its text, as long as the text of its
/// timestamp holds no `#`, reading that text gives the timestamp back,
/// and the text of its URL is read as that URL.
pub proof fn lemma_reference_round_trip(
    written: UpdateRef,
    read: Result<UpdateRef, UpdateRefParseError>,
)
    requires
        !written.timestamp.name().contains('#'),
        written.timestamp.round_trips(),
        url_accepted(written.url@),
        written.url.made_of(crate::url::parsed_url(written.url@).unwrap()),
        UpdateRef::reads_as(written.text(), read),
    ensures
        read is Ok,
        read->Ok_0.url@ == written.url@,
        read->Ok_0.url.components() == written.url.components(),
        read->Ok_0.timestamp == written.timestamp,
{
    let text = written.text();
    let at = written.url@.len() as int;
    assert(text[at] == '#');
    assert(text.contains('#'));
    assert(text.skip(at + 1) =~= written.timestamp.name());
    lemma_last_index(text, '#', at);
    assert(url_part(text) =~= written.url@);
    assert(stamp_part(text) =~= written.timestamp.name());
}

/// Ordered by URL, references compare as pairs of URL and instant do;
/// ordered by timestamp, as pairs of instant and URL do. Either way two
/// references are in order, or in reverse order, or are of one URL and one
/// instant.
pub proof fn lemma_orders_of_references(a: UpdateRef, b: UpdateRef)
    ensures
        UpdateRefByUrl::before(UpdateRefByUrl(a).key(), UpdateRefByUrl(b).key()) == (text_lt(
            a.url@,
            b.url@,
        ) || (a.url@ == b.url@ && ts_lt(a.timestamp, b.timestamp))),
        UpdateRefByTimestamp::before(UpdateRefByTimestamp(a).key(), UpdateRefByTimestamp(b).key())
            == (ts_lt(a.timestamp, b.timestamp) || (a.timestamp.instant() == b.timestamp.instant()
            && text_lt(a.url@, b.url@))),
        (a.url@ == b.url@ && a.timestamp.instant() == b.timestamp.instant())
            || UpdateRefByUrl::before(UpdateRefByUrl(a).key(), UpdateRefByUrl(b).key())
            || UpdateRefByUrl::before(UpdateRefByUrl(b).key(), UpdateRefByUrl(a).key()),
        (a.url@ == b.url@ && a.timestamp.instant() == b.timestamp.instant())
            || UpdateRefByTimestamp::before(
            UpdateRefByTimestamp(a).key(),
            UpdateRefByTimestamp(b).key(),
        ) || UpdateRefByTimestamp::before(
            UpdateRefByTimestamp(b).key(),
            UpdateRefByTimestamp(a).key(),
        ),
{
    UpdateRefByUrl::lemma_connected(UpdateRefByUrl(a).key(), UpdateRefByUrl(b).key());
    UpdateRefByTimestamp::lemma_connected(
        UpdateRefByTimestamp(a).key(),
        UpdateRefByTimestamp(b).key(),
    );
}

} // verus!
