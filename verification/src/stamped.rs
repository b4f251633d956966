//! Leaves named by timestamps: what the repositories of documents and of
//! updates both keep in their stores.

use vstd::prelude::*;
use crate::ordered::{path_lt, sorted, Ordered};
use crate::time::Timestamp;
use crate::url::Url;
use crate::url_repo::{below, UrlRepo};

verus! {

/// Whether the instant of `a` is earlier than that of `b`. Timestamps of
/// one instant are neither earlier nor later than each other, whatever
/// their offsets.
pub open spec fn ts_lt(a: Timestamp, b: Timestamp) -> bool {
    a.earlier(&b)
}

/// Whether `t` has the greatest offset of the timestamps of `m` that stand
/// for its instant. Where several timestamps of one instant could be
/// meant, this one is.
pub open spec fn tops_its_instant<V>(m: Map<Timestamp, V>, t: Timestamp) -> bool {
    forall|v: Timestamp|
        #[trigger] m.contains_key(v) && v.instant() == t.instant() ==> v.parts().2 <= t.parts().2
}

/// A timestamp as a listing orders it: by instant, and among timestamps of
/// one instant by offset, so that a listing has one order.
#[derive(Clone, Copy, Debug)]
pub struct Listed(pub Timestamp);

impl Ordered for Listed {
    type Key = (int, int, int);

    open spec fn key(&self) -> (int, int, int) {
        self.0.parts()
    }

    open spec fn before(a: (int, int, int), b: (int, int, int)) -> bool {
        a.0 < b.0 || (a.0 == b.0 && (a.1 < b.1 || (a.1 == b.1 && a.2 < b.2)))
    }

    proof fn lemma_irreflexive(a: (int, int, int)) {
    }

    proof fn lemma_transitive(a: (int, int, int), b: (int, int, int), c: (int, int, int)) {
    }

    proof fn lemma_connected(a: (int, int, int), b: (int, int, int)) {
    }

    fn precedes(&self, other: &Listed) -> (r: bool) {
        self.0.is_earlier(&other.0) || (self.0.same_instant(&other.0) && self.0.offset()
            < other.0.offset())
    }
}

/// Whether a listing puts `a` before `b`: its instant is the earlier one,
/// or both stand for one instant and its offset is the lesser one.
pub open spec fn listed_lt(a: Timestamp, b: Timestamp) -> bool {
    Listed::before(a.parts(), b.parts())
}

/// A listing puts one of two different timestamps before the other.
pub proof fn lemma_listed_connected(a: Timestamp, b: Timestamp)
    ensures
        a == b || listed_lt(a, b) || listed_lt(b, a),
{
    if a.parts() == b.parts() {
        Timestamp::lemma_parts_decide(a, b);
    }
}

/// Whether `name` is the name of the timestamp that it is read as.
pub open spec fn canonical(name: Seq<char>) -> bool {
    Timestamp::of_name(name) is Some && Timestamp::of_name(name).unwrap().name() == name
}

/// The bytes of the leaf of the node at `path` that is named by `t`, if
/// there is one, and the name of `t` is read as `t` again.
pub open spec fn stamped(repo: UrlRepo, path: Seq<Seq<char>>, t: Timestamp) -> Option<Seq<u8>> {
    if t.round_trips() {
        repo.leaf(path, t.name())
    } else {
        None
    }
}

/// The leaves of the node at `path`, by the timestamps that name them.
pub open spec fn all_stamped(repo: UrlRepo, path: Seq<Seq<char>>) -> Map<Timestamp, Seq<u8>> {
    Map::new(
        |t: Timestamp| stamped(repo, path, t) is Some,
        |t: Timestamp| stamped(repo, path, t).unwrap(),
    )
}

/// Every leaf is named by the timestamp that its name is read as.
pub open spec fn names_canonical(repo: UrlRepo) -> bool {
    forall|p: Seq<Seq<char>>, n: Seq<char>| (#[trigger] repo.leaf(p, n)) is Some ==> canonical(n)
}

/// The timestamps that the leaves of `url` are named by, each once.
pub fn stamps_of(repo: &UrlRepo, url: &Url) -> (out: Vec<Timestamp>)
    requires
        repo.wf(),
        names_canonical(*repo),
        url.wf(),
    ensures
        out@.no_duplicates(),
        forall|i: int|
            0 <= i < out.len() ==> (#[trigger] out[i]).wf() && all_stamped(*repo, url.components()).contains_key(out[i]),
        forall|t: Timestamp|
            all_stamped(*repo, url.components()).contains_key(t) ==> out@.contains(t),
{
    let ghost path = url.components();
    let mut out: Vec<Timestamp> = Vec::new();
    match repo.leaf_names_for_url(url) {
        Err(_) => {},
        Ok(leaves) => {
            let mut i: usize = 0;
            while i < leaves.len()
                invariant
                    i <= leaves.len(),
                    repo.wf(),
                    names_canonical(*repo),
                    path == url.components(),
                    crate::url_repo::lists_names(leaves@, repo.leaves(path)),
                    out.len() == i,
                    forall|k: int|
                        0 <= k < i ==> Timestamp::of_name(leaves@[k]@) == Some(
                            #[trigger] out@[k],
                        ),
                decreases leaves.len() - i,
            {
                let ghost n = leaves@[i as int]@;
                proof {
                    assert(repo.leaves(path).contains_key(n));
                    assert(repo.leaf(path, n) is Some);
                    assert(canonical(n));
                }
                match Timestamp::parse(leaves[i].as_str()) {
                    Ok(t) => {
                        out.push(t);
                    },
                    Err(_) => {
                        assert(false);
                    },
                }
                i += 1;
            }
            proof {
                assert forall|k: int| 0 <= k < out.len() implies (#[trigger] out[k]).wf()
                    && all_stamped(*repo, path).contains_key(out[k]) by {
                    let n = leaves@[k]@;
                    Timestamp::lemma_of_name_wf(n);
                    assert(repo.leaves(path).contains_key(n));
                    assert(repo.leaf(path, n) is Some);
                    assert(canonical(n));
                }
                assert forall|t: Timestamp| all_stamped(*repo, path).contains_key(t) implies out@.contains(
                    t,
                ) by {
                    assert(repo.leaves(path).contains_key(t.name()));
                    let k = choose|k: int| 0 <= k < leaves@.len() && #[trigger] leaves@[k]@ == t.name();
                    assert(out@[k] == t);
                }
                assert forall|a: int, b: int|
                    0 <= a < out.len() && 0 <= b < out.len() && a != b implies out@[a] != out@[b] by {
                    let na = leaves@[a]@;
                    let nb = leaves@[b]@;
                    assert(repo.leaves(path).contains_key(na));
                    assert(repo.leaf(path, na) is Some);
                    assert(repo.leaves(path).contains_key(nb));
                    assert(repo.leaf(path, nb) is Some);
                    assert(canonical(na) && canonical(nb));
                    if a < b {
                        String::lemma_irreflexive(na);
                    } else {
                        String::lemma_irreflexive(nb);
                    }
                }
            }
        },
    }
    out
}


/// What the versions are once the leaf of `t` is written with `w`.
pub proof fn lemma_stamped_after_create(
    before: UrlRepo,
    after: UrlRepo,
    path: Seq<Seq<char>>,
    t: Timestamp,
    w: Seq<u8>,
)
    requires
        t.round_trips(),
        forall|p: Seq<Seq<char>>, n: Seq<char>|
            after.leaf(p, n) == if p == path && n == t.name() {
                Some(w)
            } else {
                before.leaf(p, n)
            },
    ensures
        all_stamped(after, path) == all_stamped(before, path).insert(t, w),
        forall|p: Seq<Seq<char>>| p != path ==> #[trigger] all_stamped(after, p) == all_stamped(before, p),
        names_canonical(before) ==> names_canonical(after),
{
    assert(all_stamped(after, path) =~= all_stamped(before, path).insert(t, w));
    assert forall|p: Seq<Seq<char>>| p != path implies #[trigger] all_stamped(after, p)
        == all_stamped(before, p) by {
        assert(all_stamped(after, p) =~= all_stamped(before, p));
    }
    if names_canonical(before) {
        assert forall|p: Seq<Seq<char>>, n: Seq<char>|
            (#[trigger] after.leaf(p, n)) is Some implies canonical(n) by {
            if !(p == path && n == t.name()) {
                assert(before.leaf(p, n) is Some);
            }
        }
    }
}

/// What the versions are once the leaf of `a` is removed.
pub proof fn lemma_stamped_after_remove(
    before: UrlRepo,
    after: UrlRepo,
    path: Seq<Seq<char>>,
    a: Timestamp,
)
    requires
        a.round_trips(),
        forall|p: Seq<Seq<char>>, n: Seq<char>|
            after.leaf(p, n) == if p == path && n == a.name() {
                None
            } else {
                before.leaf(p, n)
            },
    ensures
        all_stamped(after, path) == all_stamped(before, path).remove(a),
        forall|p: Seq<Seq<char>>| p != path ==> #[trigger] all_stamped(after, p) == all_stamped(before, p),
        names_canonical(before) ==> names_canonical(after),
{
    assert(all_stamped(after, path) =~= all_stamped(before, path).remove(a));
    assert forall|p: Seq<Seq<char>>| p != path implies #[trigger] all_stamped(after, p)
        == all_stamped(before, p) by {
        assert(all_stamped(after, p) =~= all_stamped(before, p));
    }
    if names_canonical(before) {
        assert forall|p: Seq<Seq<char>>, n: Seq<char>|
            (#[trigger] after.leaf(p, n)) is Some implies canonical(n) by {
            assert(before.leaf(p, n) is Some);
        }
    }
}

/// The timestamps that the leaves of `url` are named by, in order: from
/// the earliest to the latest, or, if `latest_first`, the other way round.
pub fn sorted_stamps(repo: &UrlRepo, url: &Url, latest_first: bool) -> (out: Vec<Timestamp>)
    requires
        repo.wf(),
        names_canonical(*repo),
        url.wf(),
    ensures
        forall|i: int|
            0 <= i < out.len() ==> (#[trigger] out[i]).wf() && all_stamped(
                *repo,
                url.components(),
            ).contains_key(out[i]),
        forall|t: Timestamp|
            all_stamped(*repo, url.components()).contains_key(t) ==> out@.contains(t),
        forall|i: int, j: int|
            0 <= i < j < out.len() ==> if latest_first {
                listed_lt(#[trigger] out[j], #[trigger] out[i])
            } else {
                listed_lt(#[trigger] out[i], #[trigger] out[j])
            },
{
    let unsorted = stamps_of(repo, url);
    let mut wrapped: Vec<Listed> = Vec::new();
    let mut i: usize = 0;
    while i < unsorted.len()
        invariant
            i <= unsorted.len(),
            wrapped.len() == i,
            forall|k: int| 0 <= k < i ==> (#[trigger] wrapped[k]).0 == unsorted[k],
        decreases unsorted.len() - i,
    {
        wrapped.push(Listed(unsorted[i]));
        i += 1;
    }
    let ordered = sorted(wrapped, latest_first);
    proof {
        broadcast use vstd::seq_lib::group_to_multiset_ensures;

        assert forall|x: Listed| ordered@.contains(x) == wrapped@.contains(x) by {
            assert(ordered@.to_multiset().count(x) == wrapped@.to_multiset().count(x));
        }
        assert(wrapped@.no_duplicates()) by {
            assert forall|a: int, b: int|
                0 <= a < wrapped.len() && 0 <= b < wrapped.len() && a != b implies wrapped[a]
                != wrapped[b] by {
                assert(unsorted[a] != unsorted[b]);
            }
        }
        wrapped@.lemma_multiset_has_no_duplicates();
        ordered@.lemma_multiset_has_no_duplicates_conv();
    }
    let mut out: Vec<Timestamp> = Vec::new();
    let mut i: usize = 0;
    while i < ordered.len()
        invariant
            i <= ordered.len(),
            out.len() == i,
            forall|k: int| 0 <= k < i ==> #[trigger] out[k] == ordered[k].0,
        decreases ordered.len() - i,
    {
        out.push(ordered[i].0);
        i += 1;
    }
    proof {
        assert forall|k: int| 0 <= k < out.len() implies (#[trigger] out[k]).wf() && all_stamped(
            *repo,
            url.components(),
        ).contains_key(out[k]) by {
            assert(ordered@.contains(ordered@[k]));
            let j = choose|j: int| 0 <= j < wrapped@.len() && wrapped@[j] == ordered@[k];
            assert(unsorted[j].wf());
        }
        assert forall|t: Timestamp|
            all_stamped(*repo, url.components()).contains_key(t) implies out@.contains(t) by {
            assert(unsorted@.contains(t));
            let j = choose|j: int| 0 <= j < unsorted@.len() && unsorted@[j] == t;
            assert(wrapped@[j] == Listed(t));
            assert(wrapped@.contains(Listed(t)));
            assert(ordered@.contains(Listed(t)));
            let k = choose|k: int| 0 <= k < ordered@.len() && ordered@[k] == Listed(t);
            assert(out@[k] == t);
        }
        assert forall|i: int, j: int| 0 <= i < j < out.len() implies if latest_first {
            listed_lt(#[trigger] out[j], #[trigger] out[i])
        } else {
            listed_lt(#[trigger] out[i], #[trigger] out[j])
        } by {
            lemma_listed_connected(out@[i], out@[j]);
            assert(ordered@[i] != ordered@[j]);
            if latest_first {
                assert(!Listed::before(ordered@[i].key(), ordered@[j].key()));
            } else {
                assert(!Listed::before(ordered@[j].key(), ordered@[i].key()));
            }
        }
    }
    out
}

/// A leaf named by a timestamp, with the URL of its node.
#[derive(Debug)]
pub struct Stamped {
    pub url: Url,
    pub timestamp: Timestamp,
    pub content: Vec<u8>,
}

/// Whether `a` stands before `b` in a listing: its node comes first in the
/// order of paths, or both are of one node and its timestamp comes first.
pub open spec fn stamped_before(a: Stamped, b: Stamped) -> bool {
    path_lt(a.url.components(), b.url.components()) || (a.url.components() == b.url.components()
        && listed_lt(a.timestamp, b.timestamp))
}

/// Whether `x` is a leaf of `repo` at or below `base`, with the URL of its
/// node and with its bytes.
pub open spec fn is_stamped_below(repo: UrlRepo, base: Seq<Seq<char>>, x: Stamped) -> bool {
    &&& x.url.wf()
    &&& x.timestamp.wf()
    &&& below(x.url.components(), base)
    &&& x.url@ == repo.node_url(x.url.components())
    &&& stamped(repo, x.url.components(), x.timestamp) == Some(x.content@)
}

/// Whether `out` holds exactly the leaves of `repo` at or below `base`:
/// node after node in the order of their paths, and the leaves of each
/// node from the earliest to the latest.
pub open spec fn lists_stamped(out: Seq<Stamped>, repo: UrlRepo, base: Seq<Seq<char>>) -> bool {
    &&& forall|k: int| 0 <= k < out.len() ==> is_stamped_below(repo, base, #[trigger] out[k])
    &&& forall|p: Seq<Seq<char>>, t: Timestamp|
        below(p, base) && (#[trigger] stamped(repo, p, t)) is Some ==> exists|k: int|
            0 <= k < out.len() && (#[trigger] out[k]).url.components() == p && out[k].timestamp
                == t
    &&& forall|i: int, j: int|
        0 <= i < j < out.len() ==> stamped_before(#[trigger] out[i], #[trigger] out[j])
}

/// Whether `x` is a leaf of the node of `url`, with its bytes.
pub open spec fn is_stamped_at(repo: UrlRepo, url: Url, x: Stamped) -> bool {
    &&& x.url.wf()
    &&& x.timestamp.wf()
    &&& x.url.components() == url.components()
    &&& x.url@ == url@
    &&& stamped(repo, url.components(), x.timestamp) == Some(x.content@)
}

/// Whether `out` holds exactly the leaves of the node of `url`, from the
/// earliest to the latest.
pub open spec fn lists_node(out: Seq<Stamped>, repo: UrlRepo, url: Url) -> bool {
    &&& forall|c: int| 0 <= c < out.len() ==> is_stamped_at(repo, url, #[trigger] out[c])
    &&& forall|t: Timestamp|
        (#[trigger] stamped(repo, url.components(), t)) is Some ==> exists|c: int|
            0 <= c < out.len() && (#[trigger] out[c]).timestamp == t
    &&& forall|i: int, j: int|
        0 <= i < j < out.len() ==> listed_lt(
            (#[trigger] out[i]).timestamp,
            (#[trigger] out[j]).timestamp,
        )
}

/// The leaves of the node of `url`, from the earliest to the latest.
pub fn node_stamped(repo: &UrlRepo, url: &Url) -> (out: Vec<Stamped>)
    requires
        repo.wf(),
        names_canonical(*repo),
        url.wf(),
    ensures
        lists_node(out@, *repo, *url),
{
    let ghost path = url.components();
    let stamps = sorted_stamps(repo, url, false);
    let mut out: Vec<Stamped> = Vec::new();
    let mut b: usize = 0;
    while b < stamps.len()
        invariant
            b <= stamps.len(),
            repo.wf(),
            url.wf(),
            path == url.components(),
            out.len() == b,
            forall|c: int|
                0 <= c < b ==> is_stamped_at(*repo, *url, #[trigger] out[c]) && out[c].timestamp
                    == stamps[c],
            forall|i: int|
                0 <= i < stamps.len() ==> (#[trigger] stamps[i]).wf() && all_stamped(
                    *repo,
                    path,
                ).contains_key(stamps[i]),
        decreases stamps.len() - b,
    {
        let timestamp = stamps[b];
        let name = timestamp.to_rfc3339();
        match repo.read_leaf(url, name.as_str()) {
            Ok(content) => {
                out.push(Stamped { url: url.clone(), timestamp, content });
            },
            Err(_) => {
                assert(all_stamped(*repo, path).contains_key(stamps[b as int]));
                assert(false);
            },
        }
        b += 1;
    }
    proof {
        assert forall|t: Timestamp| (#[trigger] stamped(*repo, path, t)) is Some implies exists|
            c: int,
        |
            0 <= c < out.len() && (#[trigger] out[c]).timestamp == t by {
            assert(all_stamped(*repo, path).contains_key(t));
            assert(stamps@.contains(t));
            let c = choose|c: int| 0 <= c < stamps@.len() && stamps@[c] == t;
            assert(out[c].timestamp == t);
        }
        assert forall|i: int, j: int| 0 <= i < j < out.len() implies listed_lt(
            (#[trigger] out[i]).timestamp,
            (#[trigger] out[j]).timestamp,
        ) by {
            assert(listed_lt(stamps[i], stamps[j]));
        }
    }
    out
}

/// Whether the path `p` is that of one of the first `a` URLs of `nodes`.
pub open spec fn among(nodes: Seq<Url>, a: int, p: Seq<Seq<char>>) -> bool {
    exists|n: int| 0 <= n < a && (#[trigger] nodes[n]).components() == p
}

/// Whether `out` holds exactly the leaves of the first `a` nodes of
/// `nodes`, node after node, and the leaves of each node from the earliest
/// to the latest.
pub open spec fn lists_nodes(
    out: Seq<Stamped>,
    repo: UrlRepo,
    base: Seq<Seq<char>>,
    nodes: Seq<Url>,
    a: int,
) -> bool {
    &&& forall|k: int|
        0 <= k < out.len() ==> is_stamped_below(repo, base, #[trigger] out[k]) && among(
            nodes,
            a,
            out[k].url.components(),
        )
    &&& forall|i: int, j: int|
        0 <= i < j < out.len() ==> stamped_before(#[trigger] out[i], #[trigger] out[j])
    &&& forall|n: int, t: Timestamp|
        0 <= n < a && (#[trigger] stamped(repo, nodes[n].components(), t)) is Some ==> exists|
            k: int,
        |
            0 <= k < out.len() && (#[trigger] out[k]).url.components() == nodes[n].components()
                && out[k].timestamp == t
}

/// The leaves of the next node follow those of the nodes before it.
pub proof fn lemma_lists_next_node(
    out: Seq<Stamped>,
    items: Seq<Stamped>,
    repo: UrlRepo,
    base: Seq<Seq<char>>,
    nodes: Seq<Url>,
    a: int,
)
    requires
        0 <= a < nodes.len(),
        lists_nodes(out, repo, base, nodes, a),
        lists_node(items, repo, nodes[a]),
        below(nodes[a].components(), base),
        nodes[a]@ == repo.node_url(nodes[a].components()),
        forall|i: int, j: int|
            0 <= i < j < nodes.len() ==> path_lt(
                (#[trigger] nodes[i]).components(),
                (#[trigger] nodes[j]).components(),
            ),
    ensures
        lists_nodes(out + items, repo, base, nodes, a + 1),
{
    let all = out + items;
    let path = nodes[a].components();
    assert forall|k: int| 0 <= k < all.len() implies is_stamped_below(repo, base, #[trigger] all[k])
        && among(nodes, a + 1, all[k].url.components()) by {
        if k < out.len() {
            assert(all[k] == out[k]);
            let n = choose|n: int| 0 <= n < a && (#[trigger] nodes[n]).components()
                == out[k].url.components();
            assert(nodes[n].components() == all[k].url.components());
        } else {
            assert(all[k] == items[k - out.len()]);
            assert(is_stamped_at(repo, nodes[a], items[k - out.len()]));
            assert(nodes[a].components() == all[k].url.components());
        }
    }
    assert forall|i: int, j: int| 0 <= i < j < all.len() implies stamped_before(
        #[trigger] all[i],
        #[trigger] all[j],
    ) by {
        if j < out.len() {
            assert(all[i] == out[i] && all[j] == out[j]);
        } else if i < out.len() {
            assert(all[i] == out[i]);
            assert(all[j] == items[j - out.len()]);
            assert(is_stamped_at(repo, nodes[a], items[j - out.len()]));
            let n = choose|n: int| 0 <= n < a && (#[trigger] nodes[n]).components()
                == out[i].url.components();
            assert(path_lt(nodes[n].components(), nodes[a].components()));
        } else {
            assert(all[i] == items[i - out.len()]);
            assert(all[j] == items[j - out.len()]);
            assert(is_stamped_at(repo, nodes[a], items[i - out.len()]));
            assert(is_stamped_at(repo, nodes[a], items[j - out.len()]));
        }
    }
    assert forall|n: int, t: Timestamp|
        0 <= n < a + 1 && (#[trigger] stamped(repo, nodes[n].components(), t)) is Some implies exists|
        k: int,
    |
        0 <= k < all.len() && (#[trigger] all[k]).url.components() == nodes[n].components()
            && all[k].timestamp == t by {
        if n < a {
            let k = choose|k: int|
                0 <= k < out.len() && (#[trigger] out[k]).url.components() == nodes[n].components()
                    && out[k].timestamp == t;
            assert(all[k] == out[k]);
        } else {
            let c = choose|c: int| 0 <= c < items.len() && (#[trigger] items[c]).timestamp == t;
            assert(is_stamped_at(repo, nodes[a], items[c]));
            assert(all[out.len() + c] == items[c]);
        }
    }
}

/// Every leaf at or below the node of `base_url`: node after node in the
/// order of their paths, a node before the nodes below it, and the leaves
/// of each node from the earliest to the latest.
pub fn list_stamped(repo: &UrlRepo, base_url: &Url) -> (out: Vec<Stamped>)
    requires
        repo.wf(),
        names_canonical(*repo),
        base_url.wf(),
    ensures
        lists_stamped(out@, *repo, base_url.components()),
{
    let ghost base = base_url.components();
    let nodes = repo.node_urls(base_url);
    let mut out: Vec<Stamped> = Vec::new();
    let mut a: usize = 0;
    while a < nodes.len()
        invariant
            a <= nodes.len(),
            repo.wf(),
            names_canonical(*repo),
            base == base_url.components(),
            forall|i: int|
                0 <= i < nodes.len() ==> (#[trigger] nodes[i]).wf() && below(
                    nodes[i].components(),
                    base,
                ) && nodes[i]@ == repo.node_url(nodes[i].components()),
            forall|i: int, j: int|
                0 <= i < j < nodes.len() ==> path_lt(
                    (#[trigger] nodes[i]).components(),
                    (#[trigger] nodes[j]).components(),
                ),
            lists_nodes(out@, *repo, base, nodes@, a as int),
        decreases nodes.len() - a,
    {
        let mut items = node_stamped(repo, &nodes[a]);
        proof {
            lemma_lists_next_node(out@, items@, *repo, base, nodes@, a as int);
        }
        out.append(&mut items);
        a += 1;
    }
    proof {
        assert forall|p: Seq<Seq<char>>, t: Timestamp|
            below(p, base) && (#[trigger] stamped(*repo, p, t)) is Some implies exists|k: int|
            0 <= k < out.len() && (#[trigger] out[k]).url.components() == p && out[k].timestamp
                == t by {
            assert(repo.leaf(p, t.name()) is Some);
            assert(repo.has_node(p));
            let n = choose|n: int| 0 <= n < nodes.len() && (#[trigger] nodes[n]).components() == p;
            assert(stamped(*repo, nodes[n].components(), t) is Some);
        }
    }
    out
}

} // verus!
