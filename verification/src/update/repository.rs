//! The repository of updates.

use vstd::prelude::*;
use vstd::slice::slice_to_vec;
use vstd::utf8::{decode_utf8, valid_utf8};
use crate::bytes::holds_at;
use crate::error::RepoError;
use crate::ordered::{path_lt, Ordered};
use crate::repository::{Entity, WithEvents};
use crate::stamped::{
    all_stamped, canonical, is_stamped_below, lemma_stamped_after_create, list_stamped, listed_lt,
    names_canonical, sorted_stamps, stamped, stamped_before, stamps_of, tops_its_instant, ts_lt,
};
use crate::time::Timestamp;
use crate::update::{update_event_views, Update, UpdateEvent, UpdateEventView};
use crate::url::Url;
use crate::ordered::text_lt;
use crate::text::{clash, lemma_paths_in_text_order, no_slash, slashed};
use crate::url_repo::{below, leaf_file_name, str_same, UrlRepo};

verus! {

/// The kind of the leaves of a repository of updates.
pub open spec fn update_key() -> Seq<char> {
    seq!['u', 'p', 'd', 'a', 't', 'e']
}

/// Whether `t` is the latest of the timestamps of `m`: none is later, and
/// of those of its instant it has the greatest offset.
pub open spec fn is_latest(m: Map<Timestamp, Seq<char>>, t: Timestamp) -> bool {
    &&& m.contains_key(t)
    &&& forall|v: Timestamp| #[trigger] m.contains_key(v) ==> !ts_lt(t, v)
    &&& tops_its_instant(m, t)
}

/// Whether every timestamp of `m` is earlier than `t`.
pub open spec fn later_than_all(m: Map<Timestamp, Seq<char>>, t: Timestamp) -> bool {
    forall|v: Timestamp| #[trigger] m.contains_key(v) ==> ts_lt(v, t)
}

/// The events of a write that stores an update of `url` at `t` beside the
/// updates `m`: it was added, and it is new if the instant of every one of
/// them is earlier than its own.
pub open spec fn write_events(m: Map<Timestamp, Seq<char>>, url: Url, t: Timestamp) -> Seq<
    UpdateEventView,
> {
    if later_than_all(m, t) {
        seq![
            UpdateEventView::Added { url: url@, path: url.components(), timestamp: t },
            UpdateEventView::New { url: url@, path: url.components(), timestamp: t },
        ]
    } else {
        seq![UpdateEventView::Added { url: url@, path: url.components(), timestamp: t }]
    }
}

/// Whether `out` holds exactly the updates of `m`, each as an update of
/// `url`, the latest first, and of the updates of one instant the one with
/// the greater offset first.
pub open spec fn lists_updates(out: Seq<Update>, url: Url, m: Map<Timestamp, Seq<char>>) -> bool {
    &&& forall|i: int|
        0 <= i < out.len() ==> m.contains_key((#[trigger] out[i]).update_ref.timestamp)
            && out[i].is(url, out[i].update_ref.timestamp, m[out[i].update_ref.timestamp])
    &&& forall|t: Timestamp|
        m.contains_key(t) ==> exists|i: int|
            0 <= i < out.len() && (#[trigger] out[i]).update_ref.timestamp == t
    &&& forall|i: int, j: int|
        0 <= i < j < out.len() ==> listed_lt(
            (#[trigger] out[j]).update_ref.timestamp,
            (#[trigger] out[i]).update_ref.timestamp,
        )
}

/// Whether `a` stands before `b` in a listing: its document comes first in
/// the order of paths, or both are of one document and a listing puts its
/// timestamp first.
pub open spec fn update_before(a: Update, b: Update) -> bool {
    path_lt(a.update_ref.url.components(), b.update_ref.url.components()) || (
    a.update_ref.url.components() == b.update_ref.url.components() && listed_lt(
        a.update_ref.timestamp,
        b.update_ref.timestamp,
    ))
}

pub struct UpdateRepo {
    repo: UrlRepo,
}

impl UpdateRepo {
    /// The store that holds the updates as leaves.
    pub closed spec fn store(&self) -> UrlRepo {
        self.repo
    }

    /// What the update of the node at `path` at `t` says, if it is stored.
    pub open spec fn change(&self, path: Seq<Seq<char>>, t: Timestamp) -> Option<Seq<char>> {
        match stamped(self.store(), path, t) {
            Some(bytes) => Some(decode_utf8(bytes)),
            None => None,
        }
    }

    /// The stored updates of the node at `path`, with what they say.
    pub open spec fn updates(&self, path: Seq<Seq<char>>) -> Map<Timestamp, Seq<char>> {
        Map::new(|t: Timestamp| self.change(path, t) is Some, |t: Timestamp| self.change(path, t).unwrap())
    }

    /// Every leaf holds a text.
    pub open spec fn all_texts(&self) -> bool {
        forall|p: Seq<Seq<char>>, n: Seq<char>|
            (#[trigger] self.store().leaf(p, n)) is Some ==> valid_utf8(
                self.store().leaf(p, n).unwrap(),
            )
    }

    /// The store is well formed and of the kind of updates, its leaves are
    /// named by timestamps, and each holds a text.
    pub open spec fn wf(&self) -> bool {
        &&& self.store().wf()
        &&& self.store().key() == update_key()
        &&& names_canonical(self.store())
        &&& self.all_texts()
    }

    /// Whether `after` is `self` with the update of `url` at `t` that says
    /// `change` stored besides: under the same base, with the nodes it had
    /// and that of `url`.
    pub open spec fn stored_in(
        &self,
        after: &UpdateRepo,
        url: Url,
        t: Timestamp,
        change: Seq<char>,
    ) -> bool {
        let path = url.components();
        &&& !self.updates(path).contains_key(t)
        &&& after.updates(path) == self.updates(path).insert(t, change)
        &&& forall|p: Seq<Seq<char>>| p != path ==> #[trigger] after.updates(p) == self.updates(p)
        &&& self.store().grown_by(&after.store(), path, url@)
    }

    /// An empty repository below `base`.
    pub fn new(base: &str) -> (r: Result<UpdateRepo, RepoError>)
        ensures
            r is Ok,
            r->Ok_0.wf(),
            r->Ok_0.store().base_path() == base@,
            forall|p: Seq<Seq<char>>| r->Ok_0.updates(p) == Map::<Timestamp, Seq<char>>::empty(),
    {
        proof {
            reveal_strlit("update");
            assert("update"@ =~= update_key());
            assert(!update_key().contains('>'));
        }
        match UrlRepo::new("update", base) {
            Ok(repo) => {
                let r = UpdateRepo { repo };
                proof {
                    assert forall|p: Seq<Seq<char>>| #[trigger]
                        r.updates(p) == Map::<Timestamp, Seq<char>>::empty() by {
                        assert(r.updates(p) =~= Map::<Timestamp, Seq<char>>::empty());
                    }
                }
                Ok(r)
            },
            Err(e) => Err(e),
        }
    }

    /// The path of the leaf of the update of `url` at `timestamp`, or,
    /// without a timestamp, of the node of `url`.
    pub fn path_for(&self, url: &Url, timestamp: Option<&Timestamp>) -> (path: String)
        requires
            url.wf(),
            timestamp is Some ==> timestamp->0.wf(),
        ensures
            path@ == match timestamp {
                Some(t) => self.store().base_path() + slashed(url.components()) + seq!['/']
                    + leaf_file_name(self.store().key(), t.name()),
                None => self.store().base_path() + slashed(url.components()),
            },
    {
        match timestamp {
            Some(t) => self.repo.leaf_path(url, t.to_rfc3339().as_str()),
            None => self.repo.node_path(url),
        }
    }

    /// The latest of the timestamps of the updates of `url`; of several of
    /// one instant, the one with the greatest offset.
    pub fn latest(&self, url: &Url) -> (r: Result<Timestamp, RepoError>)
        requires
            self.wf(),
            url.wf(),
        ensures
            match r {
                Ok(t) => is_latest(self.updates(url.components()), t),
                Err(e) => e == RepoError::NotFound && forall|v: Timestamp|
                    !self.updates(url.components()).contains_key(v),
            },
    {
        let ghost m = self.updates(url.components());
        let stamps = stamps_of(&self.repo, url);
        proof {
            assert forall|v: Timestamp| m.contains_key(v) == all_stamped(
                self.repo,
                url.components(),
            ).contains_key(v) by {}
        }
        if stamps.len() == 0 {
            proof {
                assert forall|v: Timestamp| !m.contains_key(v) by {
                    if m.contains_key(v) {
                        assert(stamps@.contains(v));
                    }
                }
            }
            return Err(RepoError::NotFound);
        }
        let mut latest = stamps[0];
        let mut k: usize = 1;
        while k < stamps.len()
            invariant
                1 <= k <= stamps.len(),
                stamps@.contains(latest),
                forall|i: int| 0 <= i < k ==> !ts_lt(latest, #[trigger] stamps[i]),
                forall|i: int|
                    0 <= i < k && (#[trigger] stamps[i]).instant() == latest.instant()
                        ==> stamps[i].parts().2 <= latest.parts().2,
            decreases stamps.len() - k,
        {
            let candidate = stamps[k];
            if latest.is_earlier(&candidate) || (latest.same_instant(&candidate)
                && latest.offset() < candidate.offset()) {
                latest = candidate;
            }
            k += 1;
        }
        proof {
            let i = choose|i: int| 0 <= i < stamps@.len() && stamps@[i] == latest;
            assert(m.contains_key(stamps[i]));
            assert forall|v: Timestamp| #[trigger] m.contains_key(v) implies !ts_lt(latest, v) by {
                assert(stamps@.contains(v));
                let j = choose|j: int| 0 <= j < stamps@.len() && stamps@[j] == v;
                assert(!ts_lt(latest, stamps[j]));
            }
            assert forall|v: Timestamp|
                #[trigger] m.contains_key(v) && v.instant() == latest.instant() implies v.parts().2
                <= latest.parts().2 by {
                assert(stamps@.contains(v));
                let j = choose|j: int| 0 <= j < stamps@.len() && stamps@[j] == v;
                assert(stamps[j].instant() == latest.instant());
            }
        }
        Ok(latest)
    }

    /// Stores a new update, and tells what that gave rise to.
    pub fn create(&mut self, url: Url, timestamp: Timestamp, change: &str) -> (r: Result<
        WithEvents<Update, 2>,
        RepoError,
    >)
        requires
            old(self).wf(),
            url.wf(),
            timestamp.wf(),
        ensures
            final(self).wf(),
            match r {
                Ok(written) => {
                    &&& old(self).stored_in(final(self), url, timestamp, change@)
                    &&& written.entity.is(url, timestamp, change@)
                    &&& update_event_views(written.events@) == write_events(
                        old(self).updates(url.components()),
                        url,
                        timestamp,
                    )
                },
                Err(e) => e == RepoError::AlreadyExists && old(self).updates(
                    url.components(),
                ).contains_key(timestamp) && *final(self) == *old(self),
            },
    {
        let ghost path = url.components();
        let ghost m = self.updates(path);
        let ghost start = *self;
        let name = timestamp.to_rfc3339();
        let bytes = slice_to_vec(change.as_bytes());
        proof {
            vstd::utf8::encode_utf8_valid_utf8(change@);
            vstd::utf8::encode_utf8_decode_utf8(change@);
        }
        let newest = self.all_earlier(&url, &timestamp);
        match self.repo.create_leaf(&url, name.as_str(), bytes) {
            Err(e) => {
                return Err(e);
            },
            Ok(()) => {},
        }
        proof {
            lemma_stamped_after_create(start.repo, self.repo, path, timestamp, bytes@);
            assert(self.updates(path) =~= m.insert(timestamp, change@));
            assert forall|p: Seq<Seq<char>>| p != path implies #[trigger] self.updates(p)
                == start.updates(p) by {
                assert(all_stamped(self.repo, p) == all_stamped(start.repo, p));
                assert(self.updates(p) =~= start.updates(p));
            }
            assert(self.all_texts()) by {
                assert forall|p: Seq<Seq<char>>, n: Seq<char>|
                    (#[trigger] self.store().leaf(p, n)) is Some implies valid_utf8(
                    self.store().leaf(p, n).unwrap(),
                ) by {
                    if !(p == path && n == timestamp.name()) {
                        assert(start.store().leaf(p, n) is Some);
                    }
                }
            }
        }
        let update = Update::new(url, timestamp, change.to_owned());
        self.finish_write(update, newest, Ghost(m))
    }

    /// Whether every stored update of `url` is earlier than `timestamp`.
    pub fn all_earlier(&self, url: &Url, timestamp: &Timestamp) -> (r: bool)
        requires
            self.wf(),
            url.wf(),
        ensures
            r == later_than_all(self.updates(url.components()), *timestamp),
    {
        let ghost m = self.updates(url.components());
        let stamps = stamps_of(&self.repo, url);
        proof {
            assert forall|v: Timestamp| m.contains_key(v) == all_stamped(
                self.repo,
                url.components(),
            ).contains_key(v) by {}
        }
        let mut k: usize = 0;
        while k < stamps.len()
            invariant
                k <= stamps.len(),
                m == self.updates(url.components()),
                forall|i: int| 0 <= i < k ==> ts_lt(#[trigger] stamps[i], *timestamp),
                forall|i: int| 0 <= i < stamps.len() ==> m.contains_key(#[trigger] stamps[i]),
            decreases stamps.len() - k,
        {
            if !stamps[k].is_earlier(timestamp) {
                assert(m.contains_key(stamps[k as int]));
                return false;
            }
            k += 1;
        }
        proof {
            assert forall|v: Timestamp| #[trigger] m.contains_key(v) implies ts_lt(v, *timestamp) by {
                assert(stamps@.contains(v));
                let j = choose|j: int| 0 <= j < stamps@.len() && stamps@[j] == v;
                assert(ts_lt(stamps[j], *timestamp));
            }
        }
        true
    }

    /// What taking in a stored leaf does: `after` and `r` are what becomes
    /// of `self` and what is returned. A name that is not that of a
    /// timestamp and bytes that are no text are refused, then a leaf that
    /// is already there; else the leaf is there as an update.
    pub open spec fn taken_in(
        &self,
        after: &UpdateRepo,
        url: Url,
        name: Seq<char>,
        content: Seq<u8>,
        r: Result<(), RepoError>,
    ) -> bool {
        let path = url.components();
        let m = self.updates(path);
        if !canonical(name) || !valid_utf8(content) {
            r == Err::<(), RepoError>(RepoError::Parse) && *after == *self
        } else {
            let t = Timestamp::of_name(name).unwrap();
            if m.contains_key(t) {
                r == Err::<(), RepoError>(RepoError::AlreadyExists) && *after == *self
            } else {
                r is Ok && self.stored_in(after, url, t, decode_utf8(content))
            }
        }
    }

    /// Takes in a leaf as it is stored elsewhere, without an event.
    pub fn take_in(&mut self, url: &Url, name: &str, content: Vec<u8>) -> (r: Result<
        (),
        RepoError,
    >)
        requires
            old(self).wf(),
            url.wf(),
        ensures
            final(self).wf(),
            old(self).taken_in(final(self), *url, name@, content@, r),
    {
        let timestamp = match Timestamp::parse(name) {
            Ok(t) => t,
            Err(_) => {
                return Err(RepoError::Parse);
            },
        };
        let written = timestamp.to_rfc3339();
        if !str_same(written.as_str(), name) {
            return Err(RepoError::Parse);
        }
        let ghost bytes = content@;
        let change = match String::from_utf8(content) {
            Ok(change) => change,
            Err(_) => {
                return Err(RepoError::Parse);
            },
        };
        proof {
            vstd::utf8::decode_utf8_encode_utf8(bytes);
        }
        match self.create(url.clone(), timestamp, change.as_str()) {
            Ok(_) => Ok(()),
            Err(e) => Err(e),
        }
    }

    /// The update with the events of the write that stored it.
    fn finish_write(&self, update: Update, newest: bool, Ghost(m): Ghost<Map<Timestamp, Seq<char>>>) -> (r:
        Result<WithEvents<Update, 2>, RepoError>)
        requires
            newest == later_than_all(m, update.update_ref.timestamp),
        ensures
            r is Ok,
            r->Ok_0.entity == update,
            update_event_views(r->Ok_0.events@) == write_events(
                m,
                update.update_ref.url,
                update.update_ref.timestamp,
            ),
    {
        let added = UpdateEvent::added(&update);
        if newest {
            let new = UpdateEvent::new(&update);
            proof {
                crate::doc::repository::lemma_present_two(added, new);
            }
            let r = update.with_events([Some(added), Some(new)]);
            proof {
                assert(r->Ok_0.events.0@ =~= seq![Some(added), Some(new)]);
                assert(update_event_views(r->Ok_0.events@) =~= write_events(
                    m,
                    update.update_ref.url,
                    update.update_ref.timestamp,
                ));
            }
            r
        } else {
            proof {
                crate::doc::repository::lemma_present_two(added, added);
            }
            let r = update.with_events([Some(added), None]);
            proof {
                assert(r->Ok_0.events.0@ =~= seq![Some(added), None::<UpdateEvent>]);
                assert(update_event_views(r->Ok_0.events@) =~= write_events(
                    m,
                    update.update_ref.url,
                    update.update_ref.timestamp,
                ));
            }
            r
        }
    }
}

impl UpdateRepo {
    /// Makes sure that the update is stored. Where it already is, nothing
    /// changes and nothing is told. Where another update is stored for the
    /// same URL and time, that is an error. Else the update is stored as
    /// `create` stores it.
    pub fn ensure(&mut self, url: Url, timestamp: Timestamp, change: &str) -> (r: Result<
        WithEvents<Update, 2>,
        RepoError,
    >)
        requires
            old(self).wf(),
            url.wf(),
            timestamp.wf(),
        ensures
            final(self).wf(),
            old(self).ensured(final(self), url, timestamp, change@, r),
    {
        let name = timestamp.to_rfc3339();
        match self.repo.read_leaf(&url, name.as_str()) {
            Ok(bytes) => {
                let given = change.as_bytes();
                proof {
                    assert(self.store().leaf(url.components(), timestamp.name()) is Some);
                    vstd::utf8::encode_utf8_decode_utf8(change@);
                    vstd::utf8::decode_utf8_encode_utf8(bytes@);
                    assert(bytes@.subrange(0, bytes@.len() as int) =~= bytes@);
                }
                if bytes.len() == given.len() && holds_at(&bytes, 0, given) {
                    let update = Update::new(url, timestamp, change.to_owned());
                    let r = update.with_events([None, None]);
                    proof {
                        crate::doc::repository::lemma_present_two(
                            UpdateEvent::Added { url, timestamp },
                            UpdateEvent::Added { url, timestamp },
                        );
                        assert(r->Ok_0.events.0@ =~= seq![
                            None::<UpdateEvent>,
                            None::<UpdateEvent>,
                        ]);
                        assert(update_event_views(r->Ok_0.events@) =~= Seq::<
                            UpdateEventView,
                        >::empty());
                    }
                    r
                } else {
                    Err(RepoError::AlreadyExists)
                }
            },
            Err(_) => self.create(url, timestamp, change),
        }
    }

    /// What `ensure` does: `after` and `r` are what becomes of `self` and
    /// what is returned.
    pub open spec fn ensured(
        &self,
        after: &UpdateRepo,
        url: Url,
        t: Timestamp,
        change: Seq<char>,
        r: Result<WithEvents<Update, 2>, RepoError>,
    ) -> bool {
        let m = self.updates(url.components());
        if m.contains_key(t) {
            &&& *after == *self
            &&& if m[t] == change {
                &&& r is Ok
                &&& r->Ok_0.entity.is(url, t, change)
                &&& update_event_views(r->Ok_0.events@) == Seq::<UpdateEventView>::empty()
            } else {
                r == Err::<WithEvents<Update, 2>, RepoError>(RepoError::AlreadyExists)
            }
        } else {
            &&& r is Ok
            &&& self.stored_in(after, url, t, change)
            &&& r->Ok_0.entity.is(url, t, change)
            &&& update_event_views(r->Ok_0.events@) == write_events(m, url, t)
        }
    }

    /// An update that was stored is read back as it was written.
    pub proof fn lemma_update_round_trip(
        &self,
        after: &UpdateRepo,
        url: Url,
        t: Timestamp,
        change: Seq<char>,
    )
        requires
            self.stored_in(after, url, t, change),
        ensures
            after.change(url.components(), t) == Some(change),
    {
        assert(after.updates(url.components()).contains_key(t));
        assert(after.updates(url.components())[t] == change);
    }

    /// After an update is stored, none of its document is later than the
    /// latest: where it is later than all that were stored, it is the
    /// latest; where the latest before is later than it, that one is still
    /// the latest; and what is the latest afterwards is the update or stands
    /// for the instant of the latest before.
    pub proof fn lemma_latest_after_write(
        &self,
        after: &UpdateRepo,
        url: Url,
        t: Timestamp,
        change: Seq<char>,
    )
        requires
            self.stored_in(after, url, t, change),
        ensures
            later_than_all(self.updates(url.components()), t) ==> is_latest(
                after.updates(url.components()),
                t,
            ),
            forall|l: Timestamp|
                #[trigger] is_latest(self.updates(url.components()), l) && ts_lt(t, l)
                    ==> is_latest(after.updates(url.components()), l),
            forall|l: Timestamp|
                #[trigger] is_latest(after.updates(url.components()), l) ==> l == t || is_latest(
                    self.updates(url.components()),
                    l,
                ),
    {
        let m = self.updates(url.components());
        let m2 = after.updates(url.components());
        assert(m2.contains_key(t));
        if later_than_all(m, t) {
            assert forall|v: Timestamp| #[trigger] m2.contains_key(v) implies !ts_lt(t, v) by {
                if v != t {
                    assert(m.contains_key(v));
                }
            }
            assert forall|v: Timestamp|
                #[trigger] m2.contains_key(v) && v.instant() == t.instant() implies v.parts().2
                <= t.parts().2 by {
                if v != t {
                    assert(m.contains_key(v));
                }
            }
        }
        assert forall|l: Timestamp| #[trigger] is_latest(m, l) && ts_lt(t, l) implies is_latest(
            m2,
            l,
        ) by {
            assert(m2.contains_key(l));
            assert forall|v: Timestamp| #[trigger] m2.contains_key(v) implies !ts_lt(l, v) by {
                if v != t {
                    assert(m.contains_key(v));
                }
            }
            assert forall|v: Timestamp|
                #[trigger] m2.contains_key(v) && v.instant() == l.instant() implies v.parts().2
                <= l.parts().2 by {
                if v != t {
                    assert(m.contains_key(v));
                }
            }
        }
        assert forall|l: Timestamp| #[trigger] is_latest(m2, l) implies l == t || is_latest(
            m,
            l,
        ) by {
            if l != t {
                assert(m.contains_key(l));
                assert forall|v: Timestamp| #[trigger] m.contains_key(v) implies !ts_lt(l, v) by {
                    assert(m2.contains_key(v));
                }
                assert forall|v: Timestamp|
                    #[trigger] m.contains_key(v) && v.instant() == l.instant() implies v.parts().2
                    <= l.parts().2 by {
                    assert(m2.contains_key(v));
                }
            }
        }
    }

    /// To make sure of an update twice is to make sure of it once: the
    /// second time nothing changes and nothing is told, so that both
    /// together tell what storing the update tells.
    pub proof fn lemma_ensure_idempotent(
        &self,
        once: &UpdateRepo,
        twice: &UpdateRepo,
        url: Url,
        t: Timestamp,
        change: Seq<char>,
        first: Result<WithEvents<Update, 2>, RepoError>,
        second: Result<WithEvents<Update, 2>, RepoError>,
    )
        requires
            self.ensured(once, url, t, change, first),
            first is Ok,
            once.ensured(twice, url, t, change, second),
        ensures
            second is Ok,
            *twice == *once,
            update_event_views(second->Ok_0.events@) == Seq::<UpdateEventView>::empty(),
            !self.updates(url.components()).contains_key(t) ==> update_event_views(
                first->Ok_0.events@,
            ) + update_event_views(second->Ok_0.events@) == write_events(
                self.updates(url.components()),
                url,
                t,
            ),
    {
        let path = url.components();
        let m = self.updates(path);
        let m1 = once.updates(path);
        if m.contains_key(t) {
            assert(m1 == m);
        } else {
            assert(m1.contains_key(t) && m1[t] == change);
        }
        assert(update_event_views(first->Ok_0.events@) + Seq::<UpdateEventView>::empty()
            =~= update_event_views(first->Ok_0.events@));
    }

    /// The update of `url` at `timestamp`.
    pub fn get_update(&self, url: Url, timestamp: Timestamp) -> (r: Result<Update, RepoError>)
        requires
            self.wf(),
            url.wf(),
            timestamp.wf(),
        ensures
            match r {
                Ok(update) => self.change(url.components(), timestamp) is Some && update.is(
                    url,
                    timestamp,
                    self.change(url.components(), timestamp).unwrap(),
                ),
                Err(e) => e == RepoError::NotFound && self.change(url.components(), timestamp)
                    is None,
            },
    {
        let name = timestamp.to_rfc3339();
        match self.repo.read_leaf(&url, name.as_str()) {
            Err(e) => Err(e),
            Ok(bytes) => {
                assert(self.store().leaf(url.components(), timestamp.name()) is Some);
                match String::from_utf8(bytes) {
                    Ok(change) => Ok(Update::new(url, timestamp, change)),
                    Err(_) => Err(RepoError::Parse),
                }
            },
        }
    }

    /// The updates of `url`, the latest first.
    pub fn list_updates(&self, url: Url) -> (r: Result<Vec<Update>, RepoError>)
        requires
            self.wf(),
            url.wf(),
        ensures
            match r {
                Ok(v) => self.store().has_node(url.components()) && lists_updates(
                    v@,
                    url,
                    self.updates(url.components()),
                ),
                Err(e) => e == RepoError::NotFound && !self.store().has_node(url.components()),
            },
    {
        if !self.repo.has_node_for(&url) {
            return Err(RepoError::NotFound);
        }
        let ghost path = url.components();
        let ghost m = self.updates(path);
        let stamps = sorted_stamps(&self.repo, &url, true);
        let mut out: Vec<Update> = Vec::new();
        let mut i: usize = 0;
        while i < stamps.len()
            invariant
                i <= stamps.len(),
                self.wf(),
                url.wf(),
                path == url.components(),
                m == self.updates(path),
                out.len() == i,
                forall|k: int|
                    0 <= k < stamps.len() ==> (#[trigger] stamps[k]).wf() && all_stamped(
                        self.repo,
                        path,
                    ).contains_key(stamps[k]),
                forall|k: int|
                    0 <= k < i ==> (#[trigger] out[k]).update_ref.timestamp == stamps[k]
                        && m.contains_key(stamps[k]) && out[k].is(url, stamps[k], m[stamps[k]]),
            decreases stamps.len() - i,
        {
            assert(all_stamped(self.repo, path).contains_key(stamps[i as int]));
            match self.get_update(url.clone(), stamps[i]) {
                Ok(update) => {
                    out.push(update);
                },
                Err(_) => {
                    assert(false);
                },
            }
            i += 1;
        }
        proof {
            assert forall|t: Timestamp| m.contains_key(t) implies exists|k: int|
                0 <= k < out.len() && (#[trigger] out[k]).update_ref.timestamp == t by {
                assert(all_stamped(self.repo, path).contains_key(t));
                assert(stamps@.contains(t));
                let k = choose|k: int| 0 <= k < stamps@.len() && stamps@[k] == t;
                assert(out[k].update_ref.timestamp == t);
            }
            assert forall|a: int, b: int| 0 <= a < b < out.len() implies listed_lt(
                (#[trigger] out[b]).update_ref.timestamp,
                (#[trigger] out[a]).update_ref.timestamp,
            ) by {
                assert(listed_lt(stamps[b], stamps[a]));
            }
        }
        Ok(out)
    }

    /// Whether `out` holds exactly the stored updates at or below `base`,
    /// each with the URL of its node: document after document in the order
    /// of their paths, and the updates of each document from the earliest
    /// to the latest, those of one instant in the order of their offsets.
    pub open spec fn lists_all(&self, out: Seq<Update>, base: Seq<Seq<char>>) -> bool {
        &&& forall|k: int|
            0 <= k < out.len() ==> (#[trigger] out[k]).wf() && below(
                out[k].update_ref.url.components(),
                base,
            ) && out[k].update_ref.url@ == self.store().node_url(
                out[k].update_ref.url.components(),
            ) && self.change(out[k].update_ref.url.components(), out[k].update_ref.timestamp)
                == Some(out[k].change@)
        &&& forall|p: Seq<Seq<char>>, t: Timestamp|
            below(p, base) && (#[trigger] self.change(p, t)) is Some ==> exists|k: int|
                0 <= k < out.len() && (#[trigger] out[k]).update_ref.url.components() == p
                    && out[k].update_ref.timestamp == t
        &&& forall|i: int, j: int|
            0 <= i < j < out.len() ==> update_before(#[trigger] out[i], #[trigger] out[j])
    }

    /// `list_all` goes through the documents in the order of the texts of
    /// their paths, unless two of the paths clash below the base: the
    /// component of one begins that of the other, a character that sorts
    /// before `/` follows, and the path with the shorter component goes on.
    pub proof fn lemma_list_all_in_text_order(&self, out: Seq<Update>, base: Seq<Seq<char>>)
        requires
            base.len() >= 1,
            self.lists_all(out, base),
            forall|i: int, j: int|
                0 <= i < j < out.len() ==> !clash(
                    (#[trigger] out[i]).update_ref.url.components().skip(base.len() as int),
                    (#[trigger] out[j]).update_ref.url.components().skip(base.len() as int),
                ),
        ensures
            forall|i: int, j: int|
                0 <= i < j < out.len() ==> text_lt(
                    slashed((#[trigger] out[i]).update_ref.url.components()),
                    slashed((#[trigger] out[j]).update_ref.url.components()),
                ) || (out[i].update_ref.url.components() == out[j].update_ref.url.components() && listed_lt(
                    out[i].update_ref.timestamp,
                    out[j].update_ref.timestamp,
                )),
    {
        let paths = Seq::new(out.len(), |k: int| out[k].update_ref.url.components());
        let n = base.len() as int;
        assert forall|k: int| 0 <= k < paths.len() implies base.len() <= (#[trigger] paths[k]).len()
            && paths[k].take(n) == base && no_slash(paths[k].skip(n)) by {
            assert(out[k].wf());
            let c = out[k].update_ref.url.components();
            assert forall|i: int| 0 <= i < c.skip(n).len() implies !(#[trigger] c.skip(n)[i]).contains(
                '/',
            ) by {
                assert(c.skip(n)[i] == c.skip(1)[i + n - 1]);
            }
        }
        assert forall|i: int, j: int| 0 <= i < j < paths.len() implies path_lt(
            #[trigger] paths[i],
            #[trigger] paths[j],
        ) || paths[i] == paths[j] by {
            assert(update_before(out[i], out[j]));
        }
        assert forall|i: int, j: int| 0 <= i < j < paths.len() implies !clash(
            (#[trigger] paths[i]).skip(n),
            (#[trigger] paths[j]).skip(n),
        ) by {
            assert(!clash(out[i].update_ref.url.components().skip(n), out[j].update_ref.url.components().skip(n)));
        }
        lemma_paths_in_text_order(paths, base);
        assert forall|i: int, j: int| 0 <= i < j < out.len() implies text_lt(
            slashed((#[trigger] out[i]).update_ref.url.components()),
            slashed((#[trigger] out[j]).update_ref.url.components()),
        ) || (out[i].update_ref.url.components() == out[j].update_ref.url.components() && listed_lt(
            out[i].update_ref.timestamp,
            out[j].update_ref.timestamp,
        )) by {
            assert(paths[i] == out[i].update_ref.url.components() && paths[j] == out[j].update_ref.url.components());
            assert(update_before(out[i], out[j]));
            if paths[i] == paths[j] {
                crate::ordered::lemma_order_total::<String>();
                crate::ordered::lemma_lex_irreflexive(paths[i], crate::ordered::order_of::<String>());
            }
        }
    }

    /// Every stored update at or below `base_url`: document after document
    /// in the order of their paths, a document before the documents below
    /// it, and the updates of each document from the earliest to the
    /// latest.
    pub fn list_all(&self, base_url: &Url) -> (out: Vec<Update>)
        requires
            self.wf(),
            base_url.wf(),
        ensures
            self.lists_all(out@, base_url.components()),
    {
        let items = list_stamped(&self.repo, base_url);
        let ghost base = base_url.components();
        let mut out: Vec<Update> = Vec::new();
        let mut k: usize = 0;
        while k < items.len()
            invariant
                k <= items.len(),
                self.wf(),
                out.len() == k,
                crate::stamped::lists_stamped(items@, self.repo, base),
                forall|i: int|
                    0 <= i < k ==> (#[trigger] out[i]).update_ref.url.components()
                        == items[i].url.components() && out[i].update_ref.url@ == items[i].url@
                        && out[i].update_ref.url.wf()
                        && out[i].update_ref.timestamp == items[i].timestamp && out[i].change@
                        == decode_utf8(items[i].content@),
            decreases items.len() - k,
        {
            let item = &items[k];
            proof {
                assert(is_stamped_below(self.repo, base, items[k as int]));
                assert(self.store().leaf(item.url.components(), item.timestamp.name()) is Some);
            }
            match String::from_utf8(slice_to_vec(item.content.as_slice())) {
                Ok(change) => {
                    out.push(Update::new(item.url.clone(), item.timestamp, change));
                },
                Err(_) => {
                    assert(false);
                },
            }
            k += 1;
        }
        proof {
            assert forall|i: int| 0 <= i < out.len() implies (#[trigger] out[i]).wf() && below(
                out[i].update_ref.url.components(),
                base,
            ) && out[i].update_ref.url@ == self.store().node_url(
                out[i].update_ref.url.components(),
            ) && self.change(out[i].update_ref.url.components(), out[i].update_ref.timestamp)
                == Some(out[i].change@) by {
                assert(is_stamped_below(self.repo, base, items[i]));
            }
            assert forall|p: Seq<Seq<char>>, t: Timestamp|
                below(p, base) && (#[trigger] self.change(p, t)) is Some implies exists|i: int|
                0 <= i < out.len() && (#[trigger] out[i]).update_ref.url.components() == p
                    && out[i].update_ref.timestamp == t by {
                assert(stamped(self.repo, p, t) is Some);
                let i = choose|i: int|
                    0 <= i < items.len() && (#[trigger] items[i]).url.components() == p
                        && items[i].timestamp == t;
                assert(out[i].update_ref.timestamp == t);
            }
            assert forall|i: int, j: int| 0 <= i < j < out.len() implies update_before(
                #[trigger] out[i],
                #[trigger] out[j],
            ) by {
                assert(stamped_before(items[i], items[j]));
            }
        }
        out
    }
}

} // verus!
