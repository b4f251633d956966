//! The repository of document versions, and the writer that keeps two
//! neighbouring versions of a document from holding the same content.

use vstd::prelude::*;
use vstd::slice::{slice_subrange, slice_to_vec};
use crate::bytes::{append_bytes, holds_at, lemma_prefix_step, read_at, same_bytes};
use crate::doc::{doc_event_views, DocEvent, DocEventView, DocumentVersion};
use crate::error::RepoError;
use crate::ordered::{path_lt, Ordered};
use crate::repository::{present, Entity, WithEvents};
use crate::stamped::{
    all_stamped, canonical, lemma_stamped_after_create, lemma_stamped_after_remove,
    is_stamped_below, list_stamped, listed_lt, names_canonical, sorted_stamps, stamped,
    stamped_before, stamps_of, tops_its_instant, ts_lt,
};
use crate::time::Timestamp;
use crate::url::Url;
use crate::ordered::text_lt;
use crate::text::{clash, lemma_paths_in_text_order, no_slash, slashed};
use crate::url_repo::{below, leaf_file_name, str_same, UrlRepo};

verus! {

/// Whether `b` is the version of `m` before `t`: its instant is the latest
/// of those earlier than that of `t`, and of the versions of that instant
/// it has the greatest offset. A version of the instant of `t` is no
/// neighbour of `t`.
pub open spec fn is_predecessor(m: Map<Timestamp, Seq<u8>>, t: Timestamp, b: Timestamp) -> bool {
    &&& m.contains_key(b)
    &&& ts_lt(b, t)
    &&& forall|v: Timestamp| #[trigger] m.contains_key(v) && ts_lt(v, t) ==> !ts_lt(b, v)
    &&& tops_its_instant(m, b)
}

/// Whether `a` is the version of `m` after `t`: its instant is the
/// earliest of those later than that of `t`, and of the versions of that
/// instant it has the greatest offset.
pub open spec fn is_successor(m: Map<Timestamp, Seq<u8>>, t: Timestamp, a: Timestamp) -> bool {
    &&& m.contains_key(a)
    &&& ts_lt(t, a)
    &&& forall|v: Timestamp| #[trigger] m.contains_key(v) && ts_lt(t, v) ==> !ts_lt(v, a)
    &&& tops_its_instant(m, a)
}

/// Whether `t1` and `t2` are versions of `m`, `t1` earlier than `t2`, with
/// no version of `m` at an instant between theirs.
pub open spec fn adjacent(m: Map<Timestamp, Seq<u8>>, t1: Timestamp, t2: Timestamp) -> bool {
    &&& m.contains_key(t1)
    &&& m.contains_key(t2)
    &&& ts_lt(t1, t2)
    &&& forall|v: Timestamp| #[trigger] m.contains_key(v) ==> !(ts_lt(t1, v) && ts_lt(v, t2))
}

/// Whether no two versions of `m` stand for one instant.
pub open spec fn distinct_instants(m: Map<Timestamp, Seq<u8>>) -> bool {
    forall|a: Timestamp, b: Timestamp|
        #[trigger] m.contains_key(a) && #[trigger] m.contains_key(b) && a.instant() == b.instant()
            ==> a == b
}

/// Whether no version of `m` stands for the instant of `t`.
pub open spec fn fresh_instant(m: Map<Timestamp, Seq<u8>>, t: Timestamp) -> bool {
    forall|v: Timestamp| #[trigger] m.contains_key(v) ==> v.instant() != t.instant()
}

/// Whether no two neighbouring versions of `m` hold the same bytes.
pub open spec fn deduplicated(m: Map<Timestamp, Seq<u8>>) -> bool {
    forall|t1: Timestamp, t2: Timestamp| #[trigger] adjacent(m, t1, t2) ==> m[t1] != m[t2]
}

/// Among versions of distinct instants, storing a version at a new instant
/// that differs from both of its neighbours leaves no two neighbouring
/// versions with the same bytes.
pub proof fn lemma_store_keeps_dedup(m: Map<Timestamp, Seq<u8>>, t: Timestamp, w: Seq<u8>)
    requires
        deduplicated(m),
        distinct_instants(m),
        fresh_instant(m, t),
        forall|b: Timestamp| #[trigger] is_predecessor(m, t, b) ==> m[b] != w,
        forall|a: Timestamp| #[trigger] is_successor(m, t, a) ==> m[a] != w,
    ensures
        deduplicated(m.insert(t, w)),
        distinct_instants(m.insert(t, w)),
{
    let m2 = m.insert(t, w);
    assert forall|t1: Timestamp, t2: Timestamp| #[trigger] adjacent(m2, t1, t2) implies m2[t1]
        != m2[t2] by {
        if t1 == t {
            assert(m.contains_key(t2));
            assert forall|v: Timestamp| #[trigger] m.contains_key(v) && ts_lt(t, v) implies !ts_lt(
                v,
                t2,
            ) by {
                assert(m2.contains_key(v));
            }
            assert(is_successor(m, t, t2));
        } else if t2 == t {
            assert(m.contains_key(t1));
            assert forall|v: Timestamp| #[trigger] m.contains_key(v) && ts_lt(v, t) implies !ts_lt(
                t1,
                v,
            ) by {
                assert(m2.contains_key(v));
            }
            assert(is_predecessor(m, t, t1));
        } else {
            assert forall|v: Timestamp| #[trigger] m.contains_key(v) implies !(ts_lt(t1, v)
                && ts_lt(v, t2)) by {
                assert(m2.contains_key(v));
            }
            assert(adjacent(m, t1, t2));
        }
    }
    assert forall|a: Timestamp, b: Timestamp|
        #[trigger] m2.contains_key(a) && #[trigger] m2.contains_key(b) && a.instant()
            == b.instant() implies a == b by {
        if a != t && b != t {
            assert(m.contains_key(a) && m.contains_key(b));
        } else if a != t {
            assert(m.contains_key(a));
        } else if b != t {
            assert(m.contains_key(b));
        }
    }
}

/// Among versions of distinct instants, storing a version at a new instant
/// with the bytes of the version after it, in place of that version,
/// leaves no two neighbouring versions with the same bytes, as long as the
/// version before it holds other bytes.
pub proof fn lemma_replace_keeps_dedup(
    m: Map<Timestamp, Seq<u8>>,
    t: Timestamp,
    a: Timestamp,
    w: Seq<u8>,
)
    requires
        deduplicated(m),
        distinct_instants(m),
        fresh_instant(m, t),
        is_successor(m, t, a),
        m[a] == w,
        forall|b: Timestamp| #[trigger] is_predecessor(m, t, b) ==> m[b] != w,
    ensures
        deduplicated(m.insert(t, w).remove(a)),
        distinct_instants(m.insert(t, w).remove(a)),
{
    let m2 = m.insert(t, w).remove(a);
    assert forall|t1: Timestamp, t2: Timestamp| #[trigger] adjacent(m2, t1, t2) implies m2[t1]
        != m2[t2] by {
        if t1 == t {
            assert(m.contains_key(t2) && t2 != a);
            assert(m.contains_key(a));
            assert(m.contains_key(t2) && ts_lt(t, t2));
            assert(ts_lt(a, t2));
            assert forall|v: Timestamp| #[trigger] m.contains_key(v) implies !(ts_lt(a, v)
                && ts_lt(v, t2)) by {
                if ts_lt(a, v) && ts_lt(v, t2) {
                    assert(m2.contains_key(v));
                }
            }
            assert(adjacent(m, a, t2));
        } else if t2 == t {
            assert(m.contains_key(t1));
            assert forall|v: Timestamp| #[trigger] m.contains_key(v) && ts_lt(v, t) implies !ts_lt(
                t1,
                v,
            ) by {
                assert(m2.contains_key(v));
            }
            assert(is_predecessor(m, t, t1));
        } else {
            assert(m.contains_key(t1) && m.contains_key(t2));
            assert forall|v: Timestamp| #[trigger] m.contains_key(v) implies !(ts_lt(t1, v)
                && ts_lt(v, t2)) by {
                if v == a {
                    if ts_lt(t1, a) && ts_lt(a, t2) {
                        if ts_lt(t1, t) {
                            assert(m2.contains_key(t));
                        }
                    }
                } else {
                    assert(m2.contains_key(v));
                }
            }
            assert(adjacent(m, t1, t2));
        }
    }
    assert forall|x: Timestamp, y: Timestamp|
        #[trigger] m2.contains_key(x) && #[trigger] m2.contains_key(y) && x.instant()
            == y.instant() implies x == y by {
        if x != t && y != t {
            assert(m.contains_key(x) && m.contains_key(y));
        } else if x != t {
            assert(m.contains_key(x));
        } else if y != t {
            assert(m.contains_key(y));
        }
    }
}

/// A timestamp has one version before it that is the latest, at most.
pub proof fn lemma_predecessor_unique(m: Map<Timestamp, Seq<u8>>, t: Timestamp, b: Timestamp, c: Timestamp)
    requires
        is_predecessor(m, t, b),
        is_predecessor(m, t, c),
    ensures
        b == c,
{
    Timestamp::lemma_parts_decide(b, c);
}

/// A timestamp has one version after it that is the earliest, at most.
pub proof fn lemma_successor_unique(m: Map<Timestamp, Seq<u8>>, t: Timestamp, a: Timestamp, c: Timestamp)
    requires
        is_successor(m, t, a),
        is_successor(m, t, c),
    ensures
        a == c,
{
    Timestamp::lemma_parts_decide(a, c);
}

/// The latest version of `m` before `t`, if `m` has a version before `t`.
pub open spec fn predecessor(m: Map<Timestamp, Seq<u8>>, t: Timestamp) -> Option<Timestamp> {
    if exists|b: Timestamp| is_predecessor(m, t, b) {
        Some(choose|b: Timestamp| is_predecessor(m, t, b))
    } else {
        None
    }
}

/// The earliest version of `m` after `t`, if `m` has a version after `t`.
pub open spec fn successor(m: Map<Timestamp, Seq<u8>>, t: Timestamp) -> Option<Timestamp> {
    if exists|a: Timestamp| is_successor(m, t, a) {
        Some(choose|a: Timestamp| is_successor(m, t, a))
    } else {
        None
    }
}

/// What becomes of content written for a new version.
pub ghost enum Outcome {
    /// The version before holds the same bytes: it stands for the content,
    /// and nothing is stored.
    KeptBefore(Timestamp),
    /// The version after holds the same bytes: the new version is stored in
    /// its place.
    ReplacedAfter(Timestamp),
    /// The new version is stored.
    Stored,
}

/// What becomes of the bytes `w` written for a version at `t` beside the
/// versions `m`. Where both neighbours hold `w`, the earlier one decides.
pub open spec fn outcome(m: Map<Timestamp, Seq<u8>>, t: Timestamp, w: Seq<u8>) -> Outcome {
    if predecessor(m, t) is Some && m[predecessor(m, t).unwrap()] == w {
        Outcome::KeptBefore(predecessor(m, t).unwrap())
    } else if successor(m, t) is Some && m[successor(m, t).unwrap()] == w {
        Outcome::ReplacedAfter(successor(m, t).unwrap())
    } else {
        Outcome::Stored
    }
}

/// Whether `v` holds exactly the versions of `m`, each as a version of
/// `url`, the latest first, and of the versions of one instant the one
/// with the greater offset first.
pub open spec fn lists_versions(v: Seq<DocumentVersion>, url: Url, m: Map<Timestamp, Seq<u8>>) -> bool {
    &&& forall|i: int|
        0 <= i < v.len() ==> (#[trigger] v[i]).url@ == url@ && v[i].url.components()
            == url.components() && m.contains_key(v[i].timestamp)
    &&& forall|t: Timestamp|
        m.contains_key(t) ==> exists|i: int| 0 <= i < v.len() && (#[trigger] v[i]).timestamp == t
    &&& forall|i: int, j: int|
        0 <= i < j < v.len() ==> listed_lt((#[trigger] v[j]).timestamp, (#[trigger] v[i]).timestamp)
}

/// Whether `b` is the one of `versions` before `t`: the latest of the
/// earlier ones, and of those of its instant the one with the greatest
/// offset.
pub open spec fn is_before(versions: Seq<Timestamp>, t: Timestamp, b: Timestamp) -> bool {
    &&& versions.contains(b)
    &&& ts_lt(b, t)
    &&& forall|i: int|
        0 <= i < versions.len() && ts_lt(#[trigger] versions[i], t) ==> !ts_lt(b, versions[i])
    &&& forall|i: int|
        0 <= i < versions.len() && (#[trigger] versions[i]).instant() == b.instant()
            ==> versions[i].parts().2 <= b.parts().2
}

/// Whether `a` is the one of `versions` after `t`: the earliest of the
/// later ones, and of those of its instant the one with the greatest
/// offset.
pub open spec fn is_after(versions: Seq<Timestamp>, t: Timestamp, a: Timestamp) -> bool {
    &&& versions.contains(a)
    &&& ts_lt(t, a)
    &&& forall|i: int|
        0 <= i < versions.len() && ts_lt(t, #[trigger] versions[i]) ==> !ts_lt(versions[i], a)
    &&& forall|i: int|
        0 <= i < versions.len() && (#[trigger] versions[i]).instant() == a.instant()
            ==> versions[i].parts().2 <= a.parts().2
}

/// The neighbours of `timestamp` among `versions`: the one before it, if
/// any is earlier, and the one after it, if any is later. One that stands
/// for the instant of `timestamp` is neither.
pub fn neighbours(versions: &Vec<Timestamp>, timestamp: &Timestamp) -> (r: (
    Option<Timestamp>,
    Option<Timestamp>,
))
    ensures
        match r.0 {
            Some(b) => is_before(versions@, *timestamp, b),
            None => forall|i: int|
                0 <= i < versions.len() ==> !ts_lt(#[trigger] versions[i], *timestamp),
        },
        match r.1 {
            Some(a) => is_after(versions@, *timestamp, a),
            None => forall|i: int|
                0 <= i < versions.len() ==> !ts_lt(*timestamp, #[trigger] versions[i]),
        },
{
    let mut before: Option<Timestamp> = None;
    let mut after: Option<Timestamp> = None;
    let mut k: usize = 0;
    while k < versions.len()
        invariant
            k <= versions.len(),
            match before {
                Some(b) => is_before(versions@.take(k as int), *timestamp, b),
                None => forall|i: int| 0 <= i < k ==> !ts_lt(#[trigger] versions[i], *timestamp),
            },
            match after {
                Some(a) => is_after(versions@.take(k as int), *timestamp, a),
                None => forall|i: int| 0 <= i < k ==> !ts_lt(*timestamp, #[trigger] versions[i]),
            },
        decreases versions.len() - k,
    {
        let candidate = versions[k];
        let ghost seen = versions@.take(k as int);
        let ghost next = versions@.take(k + 1);
        proof {
            assert(next =~= seen.push(candidate));
            assert(next[k as int] == candidate);
            assert(next.contains(candidate));
            assert forall|x: Timestamp| seen.contains(x) implies next.contains(x) by {
                let i = choose|i: int| 0 <= i < seen.len() && seen[i] == x;
                assert(next[i] == x);
            }
        }
        if candidate.is_earlier(timestamp) {
            let closer = match before {
                Some(b) => b.is_earlier(&candidate) || (b.same_instant(&candidate) && b.offset()
                    < candidate.offset()),
                None => true,
            };
            if closer {
                before = Some(candidate);
            }
        } else if timestamp.is_earlier(&candidate) {
            let closer = match after {
                Some(a) => candidate.is_earlier(&a) || (a.same_instant(&candidate) && a.offset()
                    < candidate.offset()),
                None => true,
            };
            if closer {
                after = Some(candidate);
            }
        }
        proof {
            match before {
                Some(b) => {
                    assert forall|i: int|
                        0 <= i < next.len() && ts_lt(#[trigger] next[i], *timestamp) implies !ts_lt(
                        b,
                        next[i],
                    ) by {
                        if i < k {
                            assert(seen[i] == next[i]);
                        }
                    }
                    assert forall|i: int|
                        0 <= i < next.len() && (#[trigger] next[i]).instant()
                            == b.instant() implies next[i].parts().2 <= b.parts().2 by {
                        if i < k {
                            assert(seen[i] == next[i]);
                        }
                    }
                },
                None => {},
            }
            match after {
                Some(a) => {
                    assert forall|i: int|
                        0 <= i < next.len() && ts_lt(*timestamp, #[trigger] next[i]) implies !ts_lt(
                        next[i],
                        a,
                    ) by {
                        if i < k {
                            assert(seen[i] == next[i]);
                        }
                    }
                    assert forall|i: int|
                        0 <= i < next.len() && (#[trigger] next[i]).instant()
                            == a.instant() implies next[i].parts().2 <= a.parts().2 by {
                        if i < k {
                            assert(seen[i] == next[i]);
                        }
                    }
                },
                None => {},
            }
        }
        k += 1;
    }
    assert(versions@.take(versions.len() as int) =~= versions@);
    (before, after)
}

/// The neighbours among the timestamps of the versions `m` are the
/// neighbours among the versions.
pub proof fn lemma_neighbours_of_versions(
    versions: Seq<Timestamp>,
    m: Map<Timestamp, Seq<u8>>,
    t: Timestamp,
)
    requires
        forall|i: int| 0 <= i < versions.len() ==> m.contains_key(#[trigger] versions[i]),
        forall|v: Timestamp| m.contains_key(v) ==> versions.contains(v),
    ensures
        forall|b: Timestamp| #[trigger] is_before(versions, t, b) ==> is_predecessor(m, t, b),
        forall|a: Timestamp| #[trigger] is_after(versions, t, a) ==> is_successor(m, t, a),
        (forall|i: int| 0 <= i < versions.len() ==> !ts_lt(#[trigger] versions[i], t))
            ==> forall|b: Timestamp| !#[trigger] is_predecessor(m, t, b),
        (forall|i: int| 0 <= i < versions.len() ==> !ts_lt(t, #[trigger] versions[i]))
            ==> forall|a: Timestamp| !#[trigger] is_successor(m, t, a),
{
    assert forall|b: Timestamp| #[trigger] is_before(versions, t, b) implies is_predecessor(
        m,
        t,
        b,
    ) by {
        assert(versions.contains(b));
        let i = choose|i: int| 0 <= i < versions.len() && versions[i] == b;
        assert(m.contains_key(versions[i]));
        assert forall|v: Timestamp| #[trigger] m.contains_key(v) && ts_lt(v, t) implies !ts_lt(
            b,
            v,
        ) by {
            assert(versions.contains(v));
            let j = choose|j: int| 0 <= j < versions.len() && versions[j] == v;
            assert(ts_lt(versions[j], t));
        }
        assert forall|v: Timestamp|
            #[trigger] m.contains_key(v) && v.instant() == b.instant() implies v.parts().2
            <= b.parts().2 by {
            assert(versions.contains(v));
            let j = choose|j: int| 0 <= j < versions.len() && versions[j] == v;
            assert(versions[j].instant() == b.instant());
        }
    }
    assert forall|a: Timestamp| #[trigger] is_after(versions, t, a) implies is_successor(m, t, a) by {
        assert(versions.contains(a));
        let i = choose|i: int| 0 <= i < versions.len() && versions[i] == a;
        assert(m.contains_key(versions[i]));
        assert forall|v: Timestamp| #[trigger] m.contains_key(v) && ts_lt(t, v) implies !ts_lt(
            v,
            a,
        ) by {
            assert(versions.contains(v));
            let j = choose|j: int| 0 <= j < versions.len() && versions[j] == v;
            assert(ts_lt(t, versions[j]));
        }
        assert forall|v: Timestamp|
            #[trigger] m.contains_key(v) && v.instant() == a.instant() implies v.parts().2
            <= a.parts().2 by {
            assert(versions.contains(v));
            let j = choose|j: int| 0 <= j < versions.len() && versions[j] == v;
            assert(versions[j].instant() == a.instant());
        }
    }
    if forall|i: int| 0 <= i < versions.len() ==> !ts_lt(#[trigger] versions[i], t) {
        assert forall|b: Timestamp| !#[trigger] is_predecessor(m, t, b) by {
            if is_predecessor(m, t, b) {
                assert(versions.contains(b));
                let j = choose|j: int| 0 <= j < versions.len() && versions[j] == b;
                assert(ts_lt(versions[j], t));
            }
        }
    }
    if forall|i: int| 0 <= i < versions.len() ==> !ts_lt(t, #[trigger] versions[i]) {
        assert forall|a: Timestamp| !#[trigger] is_successor(m, t, a) by {
            if is_successor(m, t, a) {
                assert(versions.contains(a));
                let j = choose|j: int| 0 <= j < versions.len() && versions[j] == a;
                assert(ts_lt(t, versions[j]));
            }
        }
    }
}

/// The kind of the leaves of a repository of documents.
pub open spec fn doc_key() -> Seq<char> {
    seq!['d', 'o', 'c', 'v', 'e', 'r']
}

pub struct DocRepo {
    repo: UrlRepo,
}

impl DocRepo {
    /// The store that holds the versions as leaves.
    pub closed spec fn store(&self) -> UrlRepo {
        self.repo
    }

    /// The bytes of the version of the node at `path` taken at `t`, if it
    /// is stored.
    pub open spec fn snapshot(&self, path: Seq<Seq<char>>, t: Timestamp) -> Option<Seq<u8>> {
        stamped(self.store(), path, t)
    }

    /// The stored versions of the node at `path`, with their bytes.
    pub open spec fn versions(&self, path: Seq<Seq<char>>) -> Map<Timestamp, Seq<u8>> {
        all_stamped(self.store(), path)
    }

    /// Every leaf is named by the timestamp that its name is read as.
    pub open spec fn names_canonical(&self) -> bool {
        names_canonical(self.store())
    }

    /// The store is well formed and of the kind of documents, and its
    /// leaves are named by timestamps.
    pub open spec fn wf(&self) -> bool {
        &&& self.store().wf()
        &&& self.store().key() == doc_key()
        &&& self.names_canonical()
    }

    /// An empty repository below `base`.
    pub fn new(base: &str) -> (r: Result<DocRepo, RepoError>)
        ensures
            r is Ok,
            r->Ok_0.wf(),
            r->Ok_0.store().base_path() == base@,
            forall|p: Seq<Seq<char>>| r->Ok_0.versions(p) == Map::<Timestamp, Seq<u8>>::empty(),
    {
        proof {
            reveal_strlit("docver");
            assert("docver"@ =~= doc_key());
            assert(!doc_key().contains('>'));
        }
        match UrlRepo::new("docver", base) {
            Ok(repo) => {
                let r = DocRepo { repo };
                proof {
                    assert forall|p: Seq<Seq<char>>| #[trigger]
                        r.versions(p) == Map::<Timestamp, Seq<u8>>::empty() by {
                        assert(r.versions(p) =~= Map::<Timestamp, Seq<u8>>::empty());
                    }
                }
                Ok(r)
            },
            Err(e) => Err(e),
        }
    }

    /// The timestamps of the stored versions of `url`, each once.
    pub fn versions_of(&self, url: &Url) -> (out: Vec<Timestamp>)
        requires
            self.wf(),
            url.wf(),
        ensures
            out@.no_duplicates(),
            forall|i: int|
                0 <= i < out.len() ==> (#[trigger] out[i]).wf() && self.versions(
                    url.components(),
                ).contains_key(out[i]),
            forall|t: Timestamp|
                self.versions(url.components()).contains_key(t) ==> out@.contains(t),
    {
        stamps_of(&self.repo, url)
    }

    /// The path of the node of a document.
    pub fn node_path(&self, url: &Url) -> (path: String)
        ensures
            path@ == self.store().base_path() + slashed(url.components()),
    {
        self.repo.node_path(url)
    }

    /// The path of the leaf of a version.
    pub fn path_for_version(&self, doc_version: &DocumentVersion) -> (path: String)
        requires
            doc_version.wf(),
        ensures
            path@ == self.store().base_path() + slashed(doc_version.url.components()) + seq!['/']
                + leaf_file_name(self.store().key(), doc_version.timestamp.name()),
    {
        self.repo.leaf_path(&doc_version.url, doc_version.timestamp.to_rfc3339().as_str())
    }

    /// Whether `url` has a stored version.
    pub fn document_exists(&self, url: &Url) -> (r: Result<bool, RepoError>)
        requires
            self.wf(),
            url.wf(),
        ensures
            r is Ok,
            r->Ok_0 == exists|t: Timestamp| self.versions(url.components()).contains_key(t),
    {
        let versions = self.versions_of(url);
        proof {
            if versions.len() > 0 {
                assert(self.versions(url.components()).contains_key(versions[0]));
            } else if exists|t: Timestamp| self.versions(url.components()).contains_key(t) {
                let t = choose|t: Timestamp| self.versions(url.components()).contains_key(t);
                assert(versions@.contains(t));
            }
        }
        Ok(versions.len() > 0)
    }

    /// The versions of `url`, the latest first.
    pub fn list_versions(&self, url: Url) -> (r: Result<Vec<DocumentVersion>, RepoError>)
        requires
            self.wf(),
            url.wf(),
        ensures
            match r {
                Ok(v) => self.store().has_node(url.components()) && lists_versions(
                    v@,
                    url,
                    self.versions(url.components()),
                ),
                Err(e) => e == RepoError::NotFound && !self.store().has_node(url.components()),
            },
    {
        if !self.repo.has_node_for(&url) {
            return Err(RepoError::NotFound);
        }
        let ghost m = self.versions(url.components());
        let stamps = sorted_stamps(&self.repo, &url, true);
        let mut out: Vec<DocumentVersion> = Vec::new();
        let mut i: usize = 0;
        while i < stamps.len()
            invariant
                i <= stamps.len(),
                out.len() == i,
                forall|k: int|
                    0 <= k < i ==> (#[trigger] out@[k]).url@ == url@ && out@[k].url.components()
                        == url.components() && out@[k].timestamp == stamps@[k],
            decreases stamps.len() - i,
        {
            out.push(DocumentVersion { url: url.clone(), timestamp: stamps[i] });
            i += 1;
        }
        proof {
            assert forall|t: Timestamp| m.contains_key(t) implies exists|k: int|
                0 <= k < out@.len() && (#[trigger] out@[k]).timestamp == t by {
                assert(stamps@.contains(t));
                let k = choose|k: int| 0 <= k < stamps@.len() && stamps@[k] == t;
                assert(out@[k].timestamp == t);
            }
            assert forall|a: int, b: int| 0 <= a < b < out@.len() implies listed_lt(
                (#[trigger] out@[b]).timestamp,
                (#[trigger] out@[a]).timestamp,
            ) by {
                assert(listed_lt(stamps@[b], stamps@[a]));
            }
        }
        Ok(out)
    }

    /// The version of `url` at `timestamp`, where it is stored.
    pub fn ensure_version(&self, url: Url, timestamp: Timestamp) -> (r: Result<
        DocumentVersion,
        RepoError,
    >)
        requires
            self.wf(),
            url.wf(),
            timestamp.wf(),
        ensures
            match r {
                Ok(v) => v.url == url && v.timestamp == timestamp && self.versions(
                    url.components(),
                ).contains_key(timestamp),
                Err(e) => e == RepoError::NotFound && !self.versions(
                    url.components(),
                ).contains_key(timestamp),
            },
    {
        let name = timestamp.to_rfc3339();
        if self.repo.has_leaf(&url, name.as_str()) {
            Ok(DocumentVersion { url, timestamp })
        } else {
            Err(RepoError::NotFound)
        }
    }

    /// The bytes of a version.
    pub fn open(&self, doc_version: &DocumentVersion) -> (r: Result<Vec<u8>, RepoError>)
        requires
            self.wf(),
            doc_version.wf(),
        ensures
            match r {
                Ok(bytes) => self.snapshot(doc_version.url.components(), doc_version.timestamp)
                    == Some(bytes@),
                Err(e) => e == RepoError::NotFound && self.snapshot(
                    doc_version.url.components(),
                    doc_version.timestamp,
                ) is None,
            },
    {
        let name = doc_version.timestamp.to_rfc3339();
        self.repo.read_leaf(&doc_version.url, name.as_str())
    }
}

/// How many bytes are compared with the neighbours at a time.
pub const DUPLICATE_CHECK_BUFFER_SIZE: usize = 1024;

/// Up to how many bytes are held back while a neighbour may still turn out
/// to hold the same content.
pub const WRITE_AVOIDANCE_BUFFER_LIMIT: usize = 32 * 1024;

/// Whether a neighbour that was identical so far still is, once `chunk`
/// is written: it yielded as many bytes where the chunk goes, and the same.
/// `read` is what it yielded, and nothing where it ended before.
pub fn still_identical(chunk: &[u8], read: Option<&[u8]>) -> (r: bool)
    ensures
        r == (read is Some && read->0@ == chunk@),
{
    match read {
        Some(bytes) => same_bytes(bytes, chunk),
        None => false,
    }
}

/// Whether content held back in the buffer goes to the leaf, now that
/// `incoming` bytes come to the `buffered` ones: together they are more
/// than the buffer may hold.
pub fn must_spill(buffered: usize, incoming: usize) -> (r: bool)
    requires
        buffered <= WRITE_AVOIDANCE_BUFFER_LIMIT,
    ensures
        r == (buffered + incoming > WRITE_AVOIDANCE_BUFFER_LIMIT),
{
    incoming > WRITE_AVOIDANCE_BUFFER_LIMIT - buffered
}

/// What is done with the content once it has been written.
#[derive(Clone, Copy, Debug, PartialEq, Eq, Structural)]
pub enum Conclusion {
    /// Nothing is stored: the version before stands for the content.
    KeepBefore,
    /// The new version is stored and the version after removed.
    ReplaceAfter,
    /// The new version is stored; `created` says whether the document is
    /// new with it.
    Store { created: bool },
}

/// What is done with the content: `before_identical` and `after_identical`
/// say whether the neighbour held the same bytes all along and ends where
/// the content ends. The version before decides first.
pub fn conclude(before_identical: bool, after_identical: bool, is_new_doc: bool) -> (c: Conclusion)
    ensures
        c == if before_identical {
            Conclusion::KeepBefore
        } else if after_identical {
            Conclusion::ReplaceAfter
        } else {
            (Conclusion::Store { created: is_new_doc })
        },
{
    if before_identical {
        Conclusion::KeepBefore
    } else if after_identical {
        Conclusion::ReplaceAfter
    } else {
        Conclusion::Store { created: is_new_doc }
    }
}

/// A neighbouring version, and the bytes it holds.
pub struct Neighbour {
    pub version: Timestamp,
    pub content: Vec<u8>,
}

pub enum DeduplicatingWriterState {
    /// The content goes to the leaf that is being written.
    Writing { file: Vec<u8>, is_new_doc: bool },
    /// The content is held back in the buffer.
    Buffering,
}

/// Takes the content of a new version piece by piece. While it does, it
/// compares what it is given with the versions before and after the new
/// one, so that `done` can tell whether one of them already holds the same
/// content.
pub struct DeduplicatingWriter<'r> {
    pub doc: DocumentVersion,
    pub state: DeduplicatingWriterState,
    pub repo: &'r mut DocRepo,
    pub buffer: &'r mut Vec<u8>,
    /// The version before the new one, as long as the content written so
    /// far is the beginning of what it holds.
    pub identical_before: Option<Neighbour>,
    /// The version after the new one, likewise.
    pub identical_after: Option<Neighbour>,
}

impl DocRepo {
    /// Whether `held` is right about the neighbour of `t` on one side, once
    /// `written` has been written: it holds the neighbour and its bytes as
    /// long as `written` is the beginning of them, and nothing otherwise.
    pub open spec fn tracks(
        &self,
        held: Option<Neighbour>,
        path: Seq<Seq<char>>,
        t: Timestamp,
        written: Seq<u8>,
        earlier: bool,
    ) -> bool {
        let m = self.versions(path);
        match held {
            Some(n) => {
                &&& n.version.wf()
                &&& if earlier {
                    is_predecessor(m, t, n.version)
                } else {
                    is_successor(m, t, n.version)
                }
                &&& m[n.version] == n.content@
                &&& written.is_prefix_of(n.content@)
            },
            None => if earlier {
                forall|b: Timestamp| #[trigger] is_predecessor(m, t, b) ==> !written.is_prefix_of(m[b])
            } else {
                forall|a: Timestamp| #[trigger] is_successor(m, t, a) ==> !written.is_prefix_of(m[a])
            },
        }
    }
}

impl<'r> DeduplicatingWriter<'r> {
    /// The bytes written so far.
    pub open spec fn written(&self) -> Seq<u8> {
        match self.state {
            DeduplicatingWriterState::Writing { file, is_new_doc } => file@,
            DeduplicatingWriterState::Buffering => self.buffer@,
        }
    }

    pub open spec fn is_buffering(&self) -> bool {
        self.state is Buffering
    }

    pub open spec fn path(&self) -> Seq<Seq<char>> {
        self.doc.url.components()
    }

    /// Whether the writer is right about the repository, should `written`
    /// be what has been written: the new version is not stored yet, each
    /// neighbour is tracked, and content is held back only beside a
    /// neighbour, and only up to the limit.
    pub open spec fn wf_for(&self, written: Seq<u8>) -> bool {
        let m = self.repo.versions(self.path());
        let t = self.doc.timestamp;
        &&& self.repo.wf()
        &&& self.doc.wf()
        &&& t.round_trips()
        &&& !m.contains_key(t)
        &&& self.repo.tracks(self.identical_before, self.path(), t, written, true)
        &&& self.repo.tracks(self.identical_after, self.path(), t, written, false)
        &&& match self.state {
            DeduplicatingWriterState::Writing { file, is_new_doc } => is_new_doc == (forall|
                v: Timestamp,
            |
                !m.contains_key(v)),
            DeduplicatingWriterState::Buffering => self.buffer@.len()
                <= WRITE_AVOIDANCE_BUFFER_LIMIT && exists|v: Timestamp| m.contains_key(v),
        }
    }

    pub open spec fn wf(&self) -> bool {
        self.wf_for(self.written())
    }

    /// How many bytes have been written so far.
    pub fn position(&self) -> (n: usize)
        ensures
            n == self.written().len(),
    {
        match &self.state {
            DeduplicatingWriterState::Writing { file, is_new_doc } => file.len(),
            DeduplicatingWriterState::Buffering => self.buffer.len(),
        }
    }

    /// Compares `buf`, which is about to be written, with what each
    /// neighbour holds at this position, and lets go of a neighbour that
    /// holds something else there or ends before.
    pub fn check_duplicate_neighbours(&mut self, buf: &[u8])
        requires
            old(self).wf(),
        ensures
            final(self).wf_for(old(self).written() + buf@),
            final(self).doc == old(self).doc,
            final(self).state == old(self).state,
            *final(self).repo == *old(self).repo,
            *final(self).buffer == *old(self).buffer,
            *final(final(self).repo) == *final(old(self).repo),
            *final(final(self).buffer) == *final(old(self).buffer),
    {
        let ghost m = self.repo.versions(self.path());
        let ghost t = self.doc.timestamp;
        let ghost written = self.written();
        let ghost held_before = self.identical_before;
        let ghost held_after = self.identical_after;
        let offset = self.position();
        let keep_before = match &self.identical_before {
            Some(n) => still_identical(buf, read_at(&n.content, offset, buf.len())),
            None => false,
        };
        proof {
            match held_before {
                Some(n) => {
                    lemma_prefix_step(written, buf@, n.content@);
                    if !keep_before {
                        assert forall|b: Timestamp| #[trigger] is_predecessor(m, t, b) implies !(
                        written + buf@).is_prefix_of(m[b]) by {
                            lemma_predecessor_unique(m, t, b, n.version);
                        }
                    }
                },
                None => {
                    assert forall|b: Timestamp| #[trigger] is_predecessor(m, t, b) implies !(written
                        + buf@).is_prefix_of(m[b]) by {
                        lemma_prefix_step(written, buf@, m[b]);
                    }
                },
            }
        }
        if !keep_before {
            self.identical_before = None;
        }
        let keep_after = match &self.identical_after {
            Some(n) => still_identical(buf, read_at(&n.content, offset, buf.len())),
            None => false,
        };
        proof {
            match held_after {
                Some(n) => {
                    lemma_prefix_step(written, buf@, n.content@);
                    if !keep_after {
                        assert forall|a: Timestamp| #[trigger] is_successor(m, t, a) implies !(written
                            + buf@).is_prefix_of(m[a]) by {
                            lemma_successor_unique(m, t, a, n.version);
                        }
                    }
                },
                None => {
                    assert forall|a: Timestamp| #[trigger] is_successor(m, t, a) implies !(written
                        + buf@).is_prefix_of(m[a]) by {
                        lemma_prefix_step(written, buf@, m[a]);
                    }
                },
            }
        }
        if !keep_after {
            self.identical_after = None;
        }
        proof {
            let w2 = written + buf@;
            assert(self.repo.wf());
            assert(self.doc.wf());
            assert(self.path() == old(self).path());
            assert(self.repo.versions(self.path()) == m);
            assert(self.repo.tracks(self.identical_before, self.path(), t, w2, true));
            assert(self.repo.tracks(self.identical_after, self.path(), t, w2, false));
        }
    }
}

/// Two slots that are both taken hold two events.
pub proof fn lemma_present_two<Ev>(a: Ev, b: Ev)
    ensures
        present(seq![Some(a), Some(b)]) == seq![a, b],
        present(seq![Some(a), None::<Ev>]) == seq![a],
        present(seq![None::<Ev>, None::<Ev>]) == Seq::<Ev>::empty(),
{
    reveal_with_fuel(present, 3);
    assert(seq![Some(a), Some(b)].drop_first() =~= seq![Some(b)]);
    assert(seq![Some(b)].drop_first() =~= Seq::<Option<Ev>>::empty());
    assert(seq![Some(a), None::<Ev>].drop_first() =~= seq![None::<Ev>]);
    assert(seq![None::<Ev>, None::<Ev>].drop_first() =~= seq![None::<Ev>]);
    assert(seq![None::<Ev>].drop_first() =~= Seq::<Option<Ev>>::empty());
    assert(present(seq![Some(a), Some(b)]) =~= seq![a, b]);
    assert(present(seq![Some(a), None::<Ev>]) =~= seq![a]);
    assert(present(seq![None::<Ev>, None::<Ev>]) =~= Seq::<Ev>::empty());
}

impl<'r> DeduplicatingWriter<'r> {
    /// Moves what is held back in the buffer to the leaf that is being
    /// written, where the content goes from then on.
    pub fn really_flush(&mut self)
        ensures
            final(self).state == (DeduplicatingWriterState::Writing {
                file: final(self).state->file,
                is_new_doc: if old(self).state is Buffering {
                    false
                } else {
                    old(self).state->is_new_doc
                },
            }),
            final(self).written() == old(self).written(),
            final(self).doc == old(self).doc,
            final(self).identical_before == old(self).identical_before,
            final(self).identical_after == old(self).identical_after,
            *final(self).repo == *old(self).repo,
            *final(self).buffer == *old(self).buffer,
            *final(final(self).repo) == *final(old(self).repo),
            *final(final(self).buffer) == *final(old(self).buffer),
    {
        if let DeduplicatingWriterState::Buffering = self.state {
            let file = slice_to_vec(self.buffer.as_slice());
            self.state = DeduplicatingWriterState::Writing { file, is_new_doc: false };
        }
    }

    /// Takes `chunk`, which the neighbours have been compared with, as the
    /// next bytes of the content. Content that no longer fits the buffer
    /// goes to the leaf.
    pub fn store_chunk(&mut self, chunk: &[u8])
        requires
            old(self).wf_for(old(self).written() + chunk@),
        ensures
            final(self).wf(),
            final(self).written() == old(self).written() + chunk@,
            final(self).is_buffering() == (old(self).is_buffering() && old(self).written().len()
                + chunk@.len() <= WRITE_AVOIDANCE_BUFFER_LIMIT),
            final(self).doc == old(self).doc,
            *final(self).repo == *old(self).repo,
            *final(final(self).repo) == *final(old(self).repo),
            *final(final(self).buffer) == *final(old(self).buffer),
    {
        let spill = match &self.state {
            DeduplicatingWriterState::Buffering => must_spill(self.buffer.len(), chunk.len()),
            DeduplicatingWriterState::Writing { file, is_new_doc } => false,
        };
        let ghost m = self.repo.versions(self.path());
        let ghost was_buffering = self.is_buffering();
        if spill {
            self.really_flush();
        }
        proof {
            if was_buffering {
                let v = choose|v: Timestamp| m.contains_key(v);
                assert(m.contains_key(v));
            }
        }
        match &mut self.state {
            DeduplicatingWriterState::Writing { file, is_new_doc } => {
                append_bytes(file, chunk);
            },
            DeduplicatingWriterState::Buffering => {
                append_bytes(self.buffer, chunk);
            },
        }
        proof {
            assert(self.written() == old(self).written() + chunk@);
            assert(self.repo.versions(self.path()) == m);
        }
    }

    /// Takes `buf` as the next bytes of the content, and says how many
    /// bytes it took: all of them.
    pub fn write(&mut self, buf: &[u8]) -> (r: Result<usize, RepoError>)
        requires
            old(self).wf(),
        ensures
            r == Ok::<usize, RepoError>(buf.len()),
            final(self).wf(),
            final(self).written() == old(self).written() + buf@,
            final(self).is_buffering() == (old(self).is_buffering() && old(self).written().len()
                + buf@.len() <= WRITE_AVOIDANCE_BUFFER_LIMIT),
            final(self).doc == old(self).doc,
            *final(self).repo == *old(self).repo,
            *final(final(self).repo) == *final(old(self).repo),
            *final(final(self).buffer) == *final(old(self).buffer),
    {
        let mut at: usize = 0;
        assert(old(self).written() + buf@.take(0) =~= old(self).written());
        while at < buf.len()
            invariant
                at <= buf.len(),
                self.wf(),
                self.written() == old(self).written() + buf@.take(at as int),
                self.is_buffering() == (old(self).is_buffering() && old(self).written().len() + at
                    <= WRITE_AVOIDANCE_BUFFER_LIMIT),
                self.doc == old(self).doc,
                *self.repo == *old(self).repo,
                *final(self.repo) == *final(old(self).repo),
                *final(self.buffer) == *final(old(self).buffer),
            decreases buf.len() - at,
        {
            let end = if buf.len() - at > DUPLICATE_CHECK_BUFFER_SIZE {
                at + DUPLICATE_CHECK_BUFFER_SIZE
            } else {
                buf.len()
            };
            let chunk = slice_subrange(buf, at, end);
            proof {
                assert(buf@.take(at as int) + chunk@ =~= buf@.take(end as int));
                assert((old(self).written() + buf@.take(at as int)) + chunk@ =~= old(
                    self,
                ).written() + buf@.take(end as int));
            }
            self.check_duplicate_neighbours(chunk);
            self.store_chunk(chunk);
            at = end;
        }
        assert(buf@.take(buf.len() as int) =~= buf@);
        Ok(buf.len())
    }

    /// Takes all of `buf` as the next bytes of the content.
    pub fn write_all(&mut self, buf: &[u8]) -> (r: Result<(), RepoError>)
        requires
            old(self).wf(),
        ensures
            r is Ok,
            final(self).wf(),
            final(self).written() == old(self).written() + buf@,
            final(self).is_buffering() == (old(self).is_buffering() && old(self).written().len()
                + buf@.len() <= WRITE_AVOIDANCE_BUFFER_LIMIT),
            final(self).doc == old(self).doc,
            *final(self).repo == *old(self).repo,
            *final(final(self).repo) == *final(old(self).repo),
            *final(final(self).buffer) == *final(old(self).buffer),
    {
        match self.write(buf) {
            Ok(_) => Ok(()),
            Err(e) => Err(e),
        }
    }
}

impl<'r> DeduplicatingWriter<'r> {
    /// Ends the writing. Where the version before the new one holds the
    /// same bytes, that version is the result and nothing is stored. Else,
    /// where the version after it holds the same bytes, the new version is
    /// stored and that one removed. Else the new version is stored.
    pub fn done(self) -> (r: Result<WithEvents<DocumentVersion, 2>, RepoError>)
        requires
            self.wf(),
        ensures
            old(self.repo).finished(
                final(self.repo),
                self.doc.url,
                self.doc.timestamp,
                self.written(),
                r,
            ),
    {
        let ghost m = self.repo.versions(self.path());
        let ghost t = self.doc.timestamp;
        let ghost w = self.written();
        let ghost path = self.path();
        let ghost start = *self.repo;
        let total = self.position();
        let DeduplicatingWriter { doc, state, repo, buffer, identical_before, identical_after } =
            self;
        let before_same = match &identical_before {
            Some(n) => n.content.len() == total,
            None => false,
        };
        let after_same = match &identical_after {
            Some(n) => n.content.len() == total,
            None => false,
        };
        let first = match &state {
            DeduplicatingWriterState::Writing { file, is_new_doc } => *is_new_doc,
            DeduplicatingWriterState::Buffering => false,
        };
        let conclusion = conclude(before_same, after_same, first);
        if let Some(n) = identical_before {
            if let Conclusion::KeepBefore = conclusion {
                proof {
                    assert(w =~= n.content@);
                    assert(is_predecessor(m, t, n.version));
                    lemma_predecessor_unique(m, t, n.version, predecessor(m, t).unwrap());
                    lemma_present_two::<DocEvent>(DocEvent::Created { url: doc.url }, DocEvent::Created { url: doc.url });
                }
                let kept = DocumentVersion { url: doc.url, timestamp: n.version };
                let r = kept.with_events([None, None]);
                proof {
                    assert(r->Ok_0.events.0@ =~= seq![None::<DocEvent>, None::<DocEvent>]);
                    assert(doc_event_views(r->Ok_0.events@) =~= Seq::<DocEventView>::empty());
                }
                return r;
            }
        }
        proof {
            assert forall|b: Timestamp| #[trigger] is_predecessor(m, t, b) implies m[b] != w by {
                match identical_before {
                    Some(n) => {
                        lemma_predecessor_unique(m, t, b, n.version);
                    },
                    None => {
                        assert(w.is_prefix_of(w));
                    },
                }
            }
            if predecessor(m, t) is Some {
                assert(is_predecessor(m, t, predecessor(m, t).unwrap()));
            }
        }
        let content = match state {
            DeduplicatingWriterState::Writing { file, is_new_doc } => file,
            DeduplicatingWriterState::Buffering => slice_to_vec(buffer.as_slice()),
        };
        let is_new_doc = match conclusion {
            Conclusion::Store { created } => created,
            _ => false,
        };
        assert(content@ == w);
        let name = doc.timestamp.to_rfc3339();
        match repo.repo.create_leaf(&doc.url, name.as_str(), content) {
            Err(e) => {
                assert(start.snapshot(path, t) is Some);
                assert(m.contains_key(t));
                return Err(e);
            },
            Ok(()) => {},
        }
        let ghost middle = *repo;
        proof {
            lemma_stamped_after_create(start.store(), middle.store(), path, t, w);
        }
        let replaced = match conclusion {
            Conclusion::ReplaceAfter => match identical_after {
                Some(n) => Some(n.version),
                None => None,
            },
            _ => None,
        };
        match replaced {
            Some(a) => {
                proof {
                    assert(is_successor(m, t, a));
                    assert(m[a] =~= w);
                    lemma_successor_unique(m, t, a, successor(m, t).unwrap());
                    assert(m.contains_key(a));
                    assert(start.snapshot(path, a) is Some);
                    assert(a != t);
                }
                let after_name = a.to_rfc3339();
                match repo.repo.remove_leaf(&doc.url, after_name.as_str()) {
                    Err(e) => {
                        assert(middle.store().leaf(path, a.name()) is Some);
                        return Err(e);
                    },
                    Ok(()) => {},
                }
                proof {
                    lemma_stamped_after_remove(middle.store(), repo.store(), path, a);
                    assert(repo.versions(path) == m.insert(t, w).remove(a));
                    assert(start.store().grown_by(&repo.store(), path, doc.url@));
                }
                let updated = DocEvent::updated(&doc);
                let deleted = DocEvent::deleted(
                    &DocumentVersion { url: doc.url.clone(), timestamp: a },
                );
                proof {
                    lemma_present_two(updated, deleted);
                }
                let r = doc.with_events([Some(updated), Some(deleted)]);
                proof {
                    assert(r->Ok_0.events.0@ =~= seq![Some(updated), Some(deleted)]);
                    assert(doc_event_views(r->Ok_0.events@) =~= seq![
                        DocEventView::Updated { url: doc.url@, path, timestamp: t },
                        DocEventView::Deleted { url: doc.url@, path, timestamp: a },
                    ]);
                }
                r
            },
            None => {
                proof {
                    assert forall|a: Timestamp| #[trigger] is_successor(m, t, a) implies m[a]
                        != w by {
                        match identical_after {
                            Some(n) => {
                                lemma_successor_unique(m, t, a, n.version);
                            },
                            None => {
                                assert(w.is_prefix_of(w));
                            },
                        }
                    }
                    if successor(m, t) is Some {
                        assert(is_successor(m, t, successor(m, t).unwrap()));
                    }
                    if is_new_doc {
                        assert(m.dom() =~= Set::<Timestamp>::empty());
                    } else {
                        let v = choose|v: Timestamp| m.contains_key(v);
                        assert(m.dom().contains(v));
                    }
                }
                let updated = DocEvent::updated(&doc);
                if is_new_doc {
                    let created = DocEvent::created(&doc);
                    proof {
                        lemma_present_two(updated, created);
                    }
                    let r = doc.with_events([Some(updated), Some(created)]);
                    proof {
                        assert(r->Ok_0.events.0@ =~= seq![Some(updated), Some(created)]);
                        assert(doc_event_views(r->Ok_0.events@) =~= seq![
                            DocEventView::Updated { url: doc.url@, path, timestamp: t },
                            DocEventView::Created { url: doc.url@, path },
                        ]);
                    }
                    r
                } else {
                    proof {
                        lemma_present_two(updated, updated);
                    }
                    let r = doc.with_events([Some(updated), None]);
                    proof {
                        assert(r->Ok_0.events.0@ =~= seq![Some(updated), None::<DocEvent>]);
                        assert(doc_event_views(r->Ok_0.events@) =~= seq![
                            DocEventView::Updated { url: doc.url@, path, timestamp: t },
                        ]);
                    }
                    r
                }
            },
        }
    }
}

impl DocRepo {
    /// What ending the writing of a version does: `after` and `r` are what
    /// becomes of `self` and what is returned, once the bytes `w` have
    /// been written for a version of `url` at `t`.
    pub open spec fn finished(
        &self,
        after: &DocRepo,
        url: Url,
        t: Timestamp,
        w: Seq<u8>,
        r: Result<WithEvents<DocumentVersion, 2>, RepoError>,
    ) -> bool {
        let path = url.components();
        let m = self.versions(path);
        let stored = r->Ok_0.entity;
        let events = doc_event_views(r->Ok_0.events@);
        &&& r is Ok
        &&& after.wf()
        &&& forall|p: Seq<Seq<char>>| p != path ==> #[trigger] after.versions(p) == self.versions(p)
        &&& match outcome(m, t, w) {
            Outcome::KeptBefore(b) => {
                &&& stored.is(url, b)
                &&& events == Seq::<DocEventView>::empty()
                &&& *after == *self
            },
            Outcome::ReplacedAfter(a) => {
                &&& stored.is(url, t)
                &&& events == seq![
                    DocEventView::Updated { url: url@, path, timestamp: t },
                    DocEventView::Deleted { url: url@, path, timestamp: a },
                ]
                &&& after.versions(path) == m.insert(t, w).remove(a)
                &&& self.store().grown_by(&after.store(), path, url@)
            },
            Outcome::Stored => {
                &&& stored.is(url, t)
                &&& events == if m.dom() =~= Set::<Timestamp>::empty() {
                    seq![
                        DocEventView::Updated { url: url@, path, timestamp: t },
                        DocEventView::Created { url: url@, path },
                    ]
                } else {
                    seq![DocEventView::Updated { url: url@, path, timestamp: t }]
                }
                &&& after.versions(path) == m.insert(t, w)
                &&& self.store().grown_by(&after.store(), path, url@)
            },
        }
    }

    /// Where the versions of a document stand for distinct instants, no two
    /// neighbouring ones hold the same bytes, and the new version stands
    /// for an instant of its own, all of that still holds once the writing
    /// has ended.
    pub proof fn lemma_dedup_kept(
        &self,
        after: &DocRepo,
        url: Url,
        t: Timestamp,
        w: Seq<u8>,
        r: Result<WithEvents<DocumentVersion, 2>, RepoError>,
    )
        requires
            self.finished(after, url, t, w, r),
            distinct_instants(self.versions(url.components())),
            deduplicated(self.versions(url.components())),
            fresh_instant(self.versions(url.components()), t),
        ensures
            distinct_instants(after.versions(url.components())),
            deduplicated(after.versions(url.components())),
    {
        let m = self.versions(url.components());
        if predecessor(m, t) is Some {
            assert(is_predecessor(m, t, predecessor(m, t).unwrap()));
        }
        if successor(m, t) is Some {
            assert(is_successor(m, t, successor(m, t).unwrap()));
        }
        match outcome(m, t, w) {
            Outcome::KeptBefore(b) => {},
            Outcome::ReplacedAfter(a) => {
                assert forall|b: Timestamp| #[trigger] is_predecessor(m, t, b) implies m[b]
                    != w by {
                    lemma_predecessor_unique(m, t, b, predecessor(m, t).unwrap());
                }
                lemma_replace_keeps_dedup(m, t, a, w);
            },
            Outcome::Stored => {
                assert forall|b: Timestamp| #[trigger] is_predecessor(m, t, b) implies m[b]
                    != w by {
                    lemma_predecessor_unique(m, t, b, predecessor(m, t).unwrap());
                }
                assert forall|a: Timestamp| #[trigger] is_successor(m, t, a) implies m[a]
                    != w by {
                    lemma_successor_unique(m, t, a, successor(m, t).unwrap());
                }
                lemma_store_keeps_dedup(m, t, w);
            },
        }
    }

    /// The version that a write returns holds exactly the bytes that were
    /// written.
    pub proof fn lemma_content_round_trip(
        &self,
        after: &DocRepo,
        url: Url,
        t: Timestamp,
        w: Seq<u8>,
        r: Result<WithEvents<DocumentVersion, 2>, RepoError>,
    )
        requires
            !self.versions(url.components()).contains_key(t),
            self.finished(after, url, t, w, r),
        ensures
            r is Ok,
            after.snapshot(r->Ok_0.entity.url.components(), r->Ok_0.entity.timestamp) == Some(w),
    {
        let path = url.components();
        let m = self.versions(path);
        let m2 = after.versions(path);
        match outcome(m, t, w) {
            Outcome::KeptBefore(b) => {
                if !exists|b: Timestamp| is_predecessor(m, t, b) {
                    assert(predecessor(m, t) is None);
                }
                assert(is_predecessor(m, t, b));
                assert(m.contains_key(b));
                assert(m2.contains_key(b) && m2[b] == w);
            },
            Outcome::ReplacedAfter(a) => {
                if !exists|a: Timestamp| is_successor(m, t, a) {
                    assert(successor(m, t) is None);
                }
                assert(is_successor(m, t, a));
                assert(m2.contains_key(t) && m2[t] == w);
            },
            Outcome::Stored => {
                assert(m2.contains_key(t) && m2[t] == w);
            },
        }
    }

    /// Where no two neighbouring versions of a document hold the same
    /// bytes, two stored versions with no version at an instant between
    /// theirs differ.
    pub proof fn lemma_neighbours_differ(&self, path: Seq<Seq<char>>, t1: Timestamp, t2: Timestamp)
        requires
            deduplicated(self.versions(path)),
            adjacent(self.versions(path), t1, t2),
        ensures
            self.snapshot(path, t1) is Some,
            self.snapshot(path, t2) is Some,
            self.snapshot(path, t1) != self.snapshot(path, t2),
    {
        assert(deduplicated(self.versions(path)));
    }

    /// Content that the version before already holds is not stored: that
    /// version is returned, and there is no version at the new time.
    /// Content that only the version after holds is stored at the new time,
    /// and the version after is removed.
    pub proof fn lemma_dedup_direction(
        &self,
        after: &DocRepo,
        url: Url,
        t: Timestamp,
        w: Seq<u8>,
        r: Result<WithEvents<DocumentVersion, 2>, RepoError>,
    )
        requires
            !self.versions(url.components()).contains_key(t),
            self.finished(after, url, t, w, r),
        ensures
            forall|b: Timestamp|
                #[trigger] is_predecessor(self.versions(url.components()), t, b) && self.versions(
                    url.components(),
                )[b] == w ==> r->Ok_0.entity.timestamp == b && !after.versions(
                    url.components(),
                ).contains_key(t),
            (forall|b: Timestamp|
                #[trigger] is_predecessor(self.versions(url.components()), t, b) ==> self.versions(
                    url.components(),
                )[b] != w) ==> forall|a: Timestamp|
                #[trigger] is_successor(self.versions(url.components()), t, a) && self.versions(
                    url.components(),
                )[a] == w ==> r->Ok_0.entity.timestamp == t && after.versions(
                    url.components(),
                ).contains_key(t) && !after.versions(url.components()).contains_key(a),
    {
        let m = self.versions(url.components());
        assert forall|b: Timestamp| #[trigger] is_predecessor(m, t, b) && m[b] == w implies r->Ok_0.entity.timestamp
            == b && !after.versions(url.components()).contains_key(t) by {
            lemma_predecessor_unique(m, t, b, predecessor(m, t).unwrap());
        }
        if forall|b: Timestamp| #[trigger] is_predecessor(m, t, b) ==> m[b] != w {
            if predecessor(m, t) is Some {
                assert(is_predecessor(m, t, predecessor(m, t).unwrap()));
            }
            assert forall|a: Timestamp| #[trigger] is_successor(m, t, a) && m[a] == w implies r->Ok_0.entity.timestamp
                == t && after.versions(url.components()).contains_key(t) && !after.versions(
                url.components(),
            ).contains_key(a) by {
                lemma_successor_unique(m, t, a, successor(m, t).unwrap());
            }
        }
    }

    /// What taking in a stored leaf does: `after` and `r` are what becomes
    /// of `self` and what is returned. A name that is not that of a
    /// timestamp is refused, then a leaf that is already there, then bytes
    /// that the version before or after already holds; else the leaf is
    /// there as a version.
    pub open spec fn taken_in(
        &self,
        after: &DocRepo,
        url: Url,
        name: Seq<char>,
        content: Seq<u8>,
        r: Result<(), RepoError>,
    ) -> bool {
        let path = url.components();
        let m = self.versions(path);
        if !canonical(name) {
            r == Err::<(), RepoError>(RepoError::Parse) && *after == *self
        } else {
            let t = Timestamp::of_name(name).unwrap();
            if m.contains_key(t) {
                r == Err::<(), RepoError>(RepoError::AlreadyExists) && *after == *self
            } else if (predecessor(m, t) is Some && m[predecessor(m, t).unwrap()] == content) || (
            successor(m, t) is Some && m[successor(m, t).unwrap()] == content) {
                r == Err::<(), RepoError>(RepoError::InvariantViolation) && *after == *self
            } else {
                &&& r is Ok
                &&& after.versions(path) == m.insert(t, content)
                &&& forall|p: Seq<Seq<char>>|
                    p != path ==> #[trigger] after.versions(p) == self.versions(p)
                &&& self.store().grown_by(&after.store(), path, url@)
            }
        }
    }

    /// Takes in a leaf as it is stored elsewhere, without an event.
    pub fn take_in(&mut self, url: &Url, name: &str, content: Vec<u8>) -> (r: Result<
        (),
        RepoError,
    >)
        requires
            old(self).wf(),
            url.wf(),
        ensures
            final(self).wf(),
            old(self).taken_in(final(self), *url, name@, content@, r),
    {
        let ghost path = url.components();
        let ghost m = self.versions(path);
        let ghost start = *self;
        let timestamp = match Timestamp::parse(name) {
            Ok(t) => t,
            Err(_) => {
                return Err(RepoError::Parse);
            },
        };
        let written = timestamp.to_rfc3339();
        if !str_same(written.as_str(), name) {
            return Err(RepoError::Parse);
        }
        if self.repo.has_leaf(url, name) {
            return Err(RepoError::AlreadyExists);
        }
        let versions = self.versions_of(url);
        let (before, after) = neighbours(&versions, &timestamp);
        proof {
            lemma_neighbours_of_versions(versions@, m, timestamp);
        }
        let same_before = match before {
            Some(b) => {
                proof {
                    assert(is_predecessor(m, timestamp, b));
                    lemma_predecessor_unique(m, timestamp, b, predecessor(m, timestamp).unwrap());
                    let i = choose|i: int| 0 <= i < versions@.len() && versions@[i] == b;
                    assert(versions@[i].wf());
                }
                match self.open_neighbour(url, b) {
                    Some(n) => {
                        proof {
                            assert(n.content@.subrange(0, n.content@.len() as int) =~= n.content@);
                        }
                        n.content.len() == content.len() && holds_at(
                            &n.content,
                            0,
                            content.as_slice(),
                        )
                    },
                    None => false,
                }
            },
            None => {
                proof {
                    if predecessor(m, timestamp) is Some {
                        assert(is_predecessor(m, timestamp, predecessor(m, timestamp).unwrap()));
                    }
                }
                false
            },
        };
        let same_after = match after {
            Some(a) => {
                proof {
                    assert(is_successor(m, timestamp, a));
                    lemma_successor_unique(m, timestamp, a, successor(m, timestamp).unwrap());
                    let i = choose|i: int| 0 <= i < versions@.len() && versions@[i] == a;
                    assert(versions@[i].wf());
                }
                match self.open_neighbour(url, a) {
                    Some(n) => {
                        proof {
                            assert(n.content@.subrange(0, n.content@.len() as int) =~= n.content@);
                        }
                        n.content.len() == content.len() && holds_at(
                            &n.content,
                            0,
                            content.as_slice(),
                        )
                    },
                    None => false,
                }
            },
            None => {
                proof {
                    if successor(m, timestamp) is Some {
                        assert(is_successor(m, timestamp, successor(m, timestamp).unwrap()));
                    }
                }
                false
            },
        };
        if same_before || same_after {
            return Err(RepoError::InvariantViolation);
        }
        let ghost bytes = content@;
        match self.repo.create_leaf(url, name, content) {
            Err(e) => {
                assert(false);
                Err(e)
            },
            Ok(()) => {
                proof {
                    lemma_stamped_after_create(start.store(), self.store(), path, timestamp, bytes);
                }
                Ok(())
            },
        }
    }

    /// The stored version at `b`, with its bytes.
    fn open_neighbour(&self, url: &Url, b: Timestamp) -> (r: Option<Neighbour>)
        requires
            self.wf(),
            url.wf(),
            b.wf(),
            self.versions(url.components()).contains_key(b),
        ensures
            r is Some,
            r->0.version == b,
            r->0.content@ == self.versions(url.components())[b],
    {
        let name = b.to_rfc3339();
        match self.repo.read_leaf(url, name.as_str()) {
            Ok(content) => Some(Neighbour { version: b, content }),
            Err(_) => None,
        }
    }

    /// Begins a new version of `url` at `timestamp`, and hands out the
    /// writer that takes its content. The buffer is emptied and lent to the
    /// writer, which holds content back in it where the document has a
    /// version at another instant.
    pub fn create<'r>(
        &'r mut self,
        url: Url,
        timestamp: Timestamp,
        write_avoidance_buffer: &'r mut Vec<u8>,
    ) -> (r: Result<DeduplicatingWriter<'r>, RepoError>)
        requires
            old(self).wf(),
            url.wf(),
            timestamp.wf(),
        ensures
            match r {
                Ok(writer) => {
                    &&& writer.wf()
                    &&& writer.doc.url == url
                    &&& writer.doc.timestamp == timestamp
                    &&& writer.written() == Seq::<u8>::empty()
                    &&& writer.is_buffering() == exists|v: Timestamp|
                        old(self).versions(url.components()).contains_key(v) && v.instant()
                            != timestamp.instant()
                    &&& !old(self).versions(url.components()).contains_key(timestamp)
                    &&& *writer.repo == *old(self)
                    &&& *final(writer.repo) == *final(self)
                    &&& *final(writer.buffer) == *final(write_avoidance_buffer)
                },
                Err(e) => {
                    &&& e == RepoError::AlreadyExists
                    &&& old(self).versions(url.components()).contains_key(timestamp)
                    &&& *final(self) == *old(self)
                    &&& final(write_avoidance_buffer)@ == Seq::<u8>::empty()
                },
            },
    {
        write_avoidance_buffer.clear();
        let ghost path = url.components();
        let ghost m = self.versions(path);
        let name = timestamp.to_rfc3339();
        if self.repo.has_leaf(&url, name.as_str()) {
            return Err(RepoError::AlreadyExists);
        }
        let versions = self.versions_of(&url);
        let (before, after) = neighbours(&versions, &timestamp);
        proof {
            lemma_neighbours_of_versions(versions@, m, timestamp);
        }
        let identical_before = match before {
            Some(b) => {
                proof {
                    assert(is_predecessor(m, timestamp, b));
                    let i = choose|i: int| 0 <= i < versions@.len() && versions@[i] == b;
                    assert(versions@[i].wf());
                }
                self.open_neighbour(&url, b)
            },
            None => None,
        };
        let identical_after = match after {
            Some(a) => {
                proof {
                    assert(is_successor(m, timestamp, a));
                    let i = choose|i: int| 0 <= i < versions@.len() && versions@[i] == a;
                    assert(versions@[i].wf());
                }
                self.open_neighbour(&url, a)
            },
            None => None,
        };
        proof {
            if versions.len() > 0 {
                assert(m.contains_key(versions[0]));
            } else {
                assert forall|v: Timestamp| !m.contains_key(v) by {
                    if m.contains_key(v) {
                        assert(versions@.contains(v));
                    }
                }
            }
            if before is Some || after is Some {
                let n = if before is Some {
                    before->0
                } else {
                    after->0
                };
                assert(m.contains_key(n) && n.instant() != timestamp.instant());
            } else {
                assert forall|v: Timestamp| m.contains_key(v) implies v.instant()
                    == timestamp.instant() by {
                    assert(versions@.contains(v));
                    let j = choose|j: int| 0 <= j < versions@.len() && versions@[j] == v;
                    assert(!ts_lt(versions[j], timestamp) && !ts_lt(timestamp, versions[j]));
                }
            }
        }
        let state = if identical_before.is_none() && identical_after.is_none() {
            DeduplicatingWriterState::Writing { file: Vec::new(), is_new_doc: versions.len() == 0 }
        } else {
            DeduplicatingWriterState::Buffering
        };
        let writer = DeduplicatingWriter {
            doc: DocumentVersion { url, timestamp },
            state,
            repo: self,
            buffer: write_avoidance_buffer,
            identical_before,
            identical_after,
        };
        proof {
            let w = Seq::<u8>::empty();
            assert(writer.written() =~= w);
            assert(writer.repo.versions(writer.path()) == m);
            assert(writer.repo.tracks(writer.identical_before, path, timestamp, w, true));
            assert(writer.repo.tracks(writer.identical_after, path, timestamp, w, false));
            if writer.is_buffering() {
                if identical_before is Some {
                    assert(m.contains_key(identical_before->0.version));
                } else {
                    assert(m.contains_key(identical_after->0.version));
                }
            }
        }
        Ok(writer)
    }

    /// Whether `out` holds exactly the stored versions at or below `base`,
    /// each with the URL of its node: document after document in the order
    /// of their paths, and the versions of each document from the earliest
    /// to the latest, those of one instant in the order of their offsets.
    pub open spec fn lists_all(&self, out: Seq<DocumentVersion>, base: Seq<Seq<char>>) -> bool {
        &&& forall|k: int|
            0 <= k < out.len() ==> (#[trigger] out[k]).wf() && below(
                out[k].url.components(),
                base,
            ) && out[k].url@ == self.store().node_url(out[k].url.components())
                && self.versions(out[k].url.components()).contains_key(out[k].timestamp)
        &&& forall|p: Seq<Seq<char>>, t: Timestamp|
            below(p, base) && (#[trigger] self.snapshot(p, t)) is Some ==> exists|k: int|
                0 <= k < out.len() && (#[trigger] out[k]).url.components() == p
                    && out[k].timestamp == t
        &&& forall|i: int, j: int|
            0 <= i < j < out.len() ==> version_before(#[trigger] out[i], #[trigger] out[j])
    }

    /// `list_all` goes through the documents in the order of the texts of
    /// their paths, unless two of the paths clash below the base: the
    /// component of one begins that of the other, a character that sorts
    /// before `/` follows, and the path with the shorter component goes on.
    pub proof fn lemma_list_all_in_text_order(
        &self,
        out: Seq<DocumentVersion>,
        base: Seq<Seq<char>>,
    )
        requires
            base.len() >= 1,
            self.lists_all(out, base),
            forall|i: int, j: int|
                0 <= i < j < out.len() ==> !clash(
                    (#[trigger] out[i]).url.components().skip(base.len() as int),
                    (#[trigger] out[j]).url.components().skip(base.len() as int),
                ),
        ensures
            forall|i: int, j: int|
                0 <= i < j < out.len() ==> text_lt(
                    slashed((#[trigger] out[i]).url.components()),
                    slashed((#[trigger] out[j]).url.components()),
                ) || (out[i].url.components() == out[j].url.components() && listed_lt(
                    out[i].timestamp,
                    out[j].timestamp,
                )),
    {
        let paths = Seq::new(out.len(), |k: int| out[k].url.components());
        let n = base.len() as int;
        assert forall|k: int| 0 <= k < paths.len() implies base.len() <= (#[trigger] paths[k]).len()
            && paths[k].take(n) == base && no_slash(paths[k].skip(n)) by {
            assert(out[k].wf());
            let c = out[k].url.components();
            assert forall|i: int| 0 <= i < c.skip(n).len() implies !(#[trigger] c.skip(n)[i]).contains(
                '/',
            ) by {
                assert(c.skip(n)[i] == c.skip(1)[i + n - 1]);
            }
        }
        assert forall|i: int, j: int| 0 <= i < j < paths.len() implies path_lt(
            #[trigger] paths[i],
            #[trigger] paths[j],
        ) || paths[i] == paths[j] by {
            assert(version_before(out[i], out[j]));
        }
        assert forall|i: int, j: int| 0 <= i < j < paths.len() implies !clash(
            (#[trigger] paths[i]).skip(n),
            (#[trigger] paths[j]).skip(n),
        ) by {
            assert(!clash(out[i].url.components().skip(n), out[j].url.components().skip(n)));
        }
        lemma_paths_in_text_order(paths, base);
        assert forall|i: int, j: int| 0 <= i < j < out.len() implies text_lt(
            slashed((#[trigger] out[i]).url.components()),
            slashed((#[trigger] out[j]).url.components()),
        ) || (out[i].url.components() == out[j].url.components() && listed_lt(
            out[i].timestamp,
            out[j].timestamp,
        )) by {
            assert(paths[i] == out[i].url.components() && paths[j] == out[j].url.components());
            assert(version_before(out[i], out[j]));
            if paths[i] == paths[j] {
                crate::ordered::lemma_order_total::<String>();
                crate::ordered::lemma_lex_irreflexive(paths[i], crate::ordered::order_of::<String>());
            }
        }
    }

    /// Every stored version at or below `base_url`: document after
    /// document in the order of their paths, a document before the
    /// documents below it, and the versions of each document from the
    /// earliest to the latest.
    pub fn list_all(&self, base_url: &Url) -> (out: Vec<DocumentVersion>)
        requires
            self.wf(),
            base_url.wf(),
        ensures
            self.lists_all(out@, base_url.components()),
    {
        let items = list_stamped(&self.repo, base_url);
        let ghost base = base_url.components();
        let mut out: Vec<DocumentVersion> = Vec::new();
        let mut k: usize = 0;
        while k < items.len()
            invariant
                k <= items.len(),
                out.len() == k,
                forall|i: int|
                    0 <= i < k ==> (#[trigger] out[i]).url.components()
                        == items[i].url.components() && out[i].url@ == items[i].url@
                        && out[i].url.wf() && out[i].timestamp == items[i].timestamp,
                forall|i: int| 0 <= i < items.len() ==> (#[trigger] items[i]).url.wf(),
            decreases items.len() - k,
        {
            out.push(DocumentVersion { url: items[k].url.clone(), timestamp: items[k].timestamp });
            k += 1;
        }
        proof {
            assert forall|i: int| 0 <= i < out.len() implies (#[trigger] out[i]).wf() && below(
                out[i].url.components(),
                base,
            ) && out[i].url@ == self.store().node_url(out[i].url.components()) && self.versions(
                out[i].url.components(),
            ).contains_key(out[i].timestamp) by {
                assert(is_stamped_below(self.repo, base, items[i]));
            }
            assert forall|p: Seq<Seq<char>>, t: Timestamp|
                below(p, base) && (#[trigger] self.snapshot(p, t)) is Some implies exists|i: int|
                0 <= i < out.len() && (#[trigger] out[i]).url.components() == p && out[i].timestamp
                    == t by {
                assert(stamped(self.repo, p, t) is Some);
                let i = choose|i: int|
                    0 <= i < items.len() && (#[trigger] items[i]).url.components() == p
                        && items[i].timestamp == t;
                assert(out[i].timestamp == t);
            }
            assert forall|i: int, j: int| 0 <= i < j < out.len() implies version_before(
                #[trigger] out[i],
                #[trigger] out[j],
            ) by {
                assert(stamped_before(items[i], items[j]));
            }
        }
        out
    }
}

/// Whether `a` stands before `b` in a listing: its document comes first in
/// the order of paths, or both are of one document and its timestamp comes
/// first.
pub open spec fn version_before(a: DocumentVersion, b: DocumentVersion) -> bool {
    path_lt(a.url.components(), b.url.components()) || (a.url.components() == b.url.components()
        && listed_lt(a.timestamp, b.timestamp))
}

} // verus!
