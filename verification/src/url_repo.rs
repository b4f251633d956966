//! The store below the repositories: nodes found by the components of a
//! URL, each holding the leaves of one kind of repository under their names.

use vstd::prelude::*;
use vstd::slice::slice_to_vec;
use vstd::string::StringExecFns;
use crate::error::RepoError;
use crate::ordered::{path_lt, text_lt, Ordered};
use crate::sorted_map::{Entry, SortedMap};
use crate::text::{chars_of, find_char, slashed, slice_string, texts};
use crate::url::Url;

verus! {

/// The file name of the leaf `name` of a repository of kind `key`.
pub open spec fn leaf_file_name(key: Seq<char>, name: Seq<char>) -> Seq<char> {
    seq!['<'] + key + seq!['>'] + name
}

/// What an entry of a directory is to a repository.
#[derive(Debug)]
pub enum DirEntryKind {
    /// A directory that stands for a longer URL path, with its name.
    Node(String),
    /// A leaf, with the kind of repository it belongs to and its name there.
    Leaf(String, String),
    /// Neither.
    Unknown,
}

/// What `classify` makes of a file name.
pub ghost enum KindView {
    Node(Seq<char>),
    Leaf(Seq<char>, Seq<char>),
    Unknown,
}

/// An entry whose name begins with `<` and holds a `>` is a leaf: what
/// stands between the two is the kind, what follows the first `>` is the
/// name. Any other directory is a node. Anything else is unknown.
pub open spec fn kind_of(file_name: Seq<char>, is_dir: bool) -> KindView {
    if file_name.len() > 0 && file_name[0] == '<' && file_name.contains('>') {
        let split = file_name.index_of_first('>').unwrap();
        KindView::Leaf(
            file_name.subrange(1, split),
            file_name.subrange(split + 1, file_name.len() as int),
        )
    } else if is_dir {
        KindView::Node(file_name)
    } else {
        KindView::Unknown
    }
}

impl DirEntryKind {
    pub open spec fn view(&self) -> KindView {
        match self {
            DirEntryKind::Node(name) => KindView::Node(name@),
            DirEntryKind::Leaf(key, name) => KindView::Leaf(key@, name@),
            DirEntryKind::Unknown => KindView::Unknown,
        }
    }

    /// Tells what the entry named `file_name` is.
    pub fn classify(file_name: &str, is_dir: bool) -> (kind: DirEntryKind)
        ensures
            kind@ == kind_of(file_name@, is_dir),
    {
        let chars = chars_of(file_name);
        if chars.len() > 0 && chars[0] == '<' {
            if let Some(split) = find_char(&chars, '>') {
                proof {
                    let s = file_name@;
                    s.index_of_first_ensures('>');
                    let k = s.index_of_first('>').unwrap();
                    if k < split {
                        assert(s.take(split as int)[k] == '>');
                    }
                }
                return DirEntryKind::Leaf(
                    slice_string(&chars, 1, split),
                    slice_string(&chars, split + 1, chars.len()),
                );
            }
        }
        if is_dir {
            DirEntryKind::Node(file_name.to_owned())
        } else {
            DirEntryKind::Unknown
        }
    }

    /// The name, of a leaf of a repository of kind `repo_key`.
    pub fn leaf_of(&self, repo_key: &str) -> (r: Option<&str>)
        ensures
            match r {
                Some(name) => self@ == KindView::Leaf(repo_key@, name@),
                None => !(self@ matches KindView::Leaf(key, _) && key == repo_key@),
            },
    {
        match self {
            DirEntryKind::Leaf(key, name) => {
                if str_same(key.as_str(), repo_key) {
                    Some(name.as_str())
                } else {
                    None
                }
            },
            _ => None,
        }
    }

    /// The kind and the name, of a leaf.
    pub fn as_leaf(&self) -> (r: Option<(&str, &str)>)
        ensures
            match r {
                Some((key, name)) => self@ == KindView::Leaf(key@, name@),
                None => !(self@ is Leaf),
            },
    {
        match self {
            DirEntryKind::Leaf(key, name) => Some((key.as_str(), name.as_str())),
            _ => None,
        }
    }

    /// The name, of a node.
    pub fn as_node(&self) -> (r: Option<&str>)
        ensures
            match r {
                Some(name) => self@ == KindView::Node(name@),
                None => !(self@ is Node),
            },
    {
        match self {
            DirEntryKind::Node(name) => Some(name.as_str()),
            _ => None,
        }
    }
}

/// Whether the two texts are the same.
pub fn str_same(a: &str, b: &str) -> (r: bool)
    ensures
        r == (a@ == b@),
{
    a.to_owned() == b.to_owned()
}

/// The file name of a leaf is told apart again into its kind and name,
/// whatever the name, as long as the kind holds no `>`.
pub proof fn lemma_leaf_name_round_trip(key: Seq<char>, name: Seq<char>, is_dir: bool)
    requires
        !key.contains('>'),
    ensures
        kind_of(leaf_file_name(key, name), is_dir) == KindView::Leaf(key, name),
{
    let f = leaf_file_name(key, name);
    let at = key.len() as int + 1;
    assert(f[0] == '<');
    assert(f[at] == '>');
    assert(f.contains('>'));
    f.index_of_first_ensures('>');
    let k = f.index_of_first('>').unwrap();
    if k < at {
        assert(k >= 1);
        assert(key[k - 1] == '>');
        assert(key.contains('>'));
    }
    assert(f.subrange(1, k) =~= key);
    assert(f.subrange(k + 1, f.len() as int) =~= name);
}

/// A leaf as a repository hands it out: its name and its bytes.
#[derive(Debug)]
pub struct Leaf {
    pub name: String,
    pub content: Vec<u8>,
}

/// A leaf together with the URL of the node that holds it.
#[derive(Debug)]
pub struct Located {
    pub url: Url,
    pub name: String,
    pub content: Vec<u8>,
}

pub ghost struct LocatedView {
    pub url: Seq<char>,
    pub path: Seq<Seq<char>>,
    pub name: Seq<char>,
    pub content: Seq<u8>,
}

impl Located {
    pub open spec fn view(&self) -> LocatedView {
        LocatedView {
            url: self.url@,
            path: self.url.components(),
            name: self.name@,
            content: self.content@,
        }
    }
}

/// The views of the located leaves of `v`, in order.
pub open spec fn located_views(v: Seq<Located>) -> Seq<LocatedView> {
    Seq::new(v.len(), |i: int| v[i]@)
}

/// A node: the URL under which it was first written, and its leaves.
pub struct Node {
    url: Url,
    leaves: SortedMap<String, Vec<u8>>,
}

impl Node {
    pub closed spec fn url(&self) -> Url {
        self.url
    }

    /// The leaves in the order of their names.
    pub closed spec fn leaf_entries(&self) -> Seq<Entry<String, Vec<u8>>> {
        self.leaves.entries()
    }

    /// The leaves by name.
    pub closed spec fn leaves(&self) -> Map<Seq<char>, Vec<u8>> {
        self.leaves@
    }

    /// The node stands where its URL leads, and no two leaves share a name.
    pub closed spec fn wf_at(&self, path: Seq<Seq<char>>) -> bool {
        &&& self.url.wf()
        &&& self.url.components() == path
        &&& self.leaves.wf()
    }

    /// What the node contributes to a listing: its leaves in name order.
    pub open spec fn listing(&self) -> Seq<LocatedView> {
        Seq::new(
            self.leaf_entries().len(),
            |j: int|
                LocatedView {
                    url: self.url()@,
                    path: self.url().components(),
                    name: self.leaf_entries()[j].key@,
                    content: self.leaf_entries()[j].value@,
                },
        )
    }
}

/// Whether the path `a` begins with all of `b`.
pub open spec fn below(a: Seq<Seq<char>>, b: Seq<Seq<char>>) -> bool {
    b.len() <= a.len() && a.take(b.len() as int) == b
}

/// The leaves of the nodes of `entries` at or below `base`, node after node.
pub open spec fn listing(entries: Seq<Entry<Vec<String>, Node>>, base: Seq<Seq<char>>) -> Seq<
    LocatedView,
>
    decreases entries.len(),
{
    if entries.len() == 0 {
        Seq::empty()
    } else if below(entries.last().value.url().components(), base) {
        listing(entries.drop_last(), base) + entries.last().value.listing()
    } else {
        listing(entries.drop_last(), base)
    }
}

/// Whether `v` holds exactly the leaves of `m`, in the order of their names.
pub open spec fn lists_leaves(v: Seq<Leaf>, m: Map<Seq<char>, Vec<u8>>) -> bool {
    &&& forall|i: int|
        0 <= i < v.len() ==> m.contains_key(#[trigger] v[i].name@) && m[v[i].name@]@
            == v[i].content@
    &&& forall|n: Seq<char>|
        m.contains_key(n) ==> exists|i: int| 0 <= i < v.len() && #[trigger] v[i].name@ == n
    &&& forall|i: int, j: int|
        0 <= i < j < v.len() ==> text_lt(#[trigger] v[i].name@, #[trigger] v[j].name@)
}

/// Whether `v` holds exactly the names of the leaves of `m`, in order.
pub open spec fn lists_names(v: Seq<String>, m: Map<Seq<char>, Vec<u8>>) -> bool {
    &&& forall|i: int| 0 <= i < v.len() ==> m.contains_key(#[trigger] v[i]@)
    &&& forall|n: Seq<char>|
        m.contains_key(n) ==> exists|i: int| 0 <= i < v.len() && #[trigger] v[i]@ == n
    &&& forall|i: int, j: int| 0 <= i < j < v.len() ==> text_lt(#[trigger] v[i]@, #[trigger] v[j]@)
}

/// A store of leaves of one kind, found by URL and name.
pub struct UrlRepo {
    repo_key: String,
    base: String,
    nodes: SortedMap<Vec<String>, Node>,
}

impl UrlRepo {
    /// The kind of repository, which marks the names of its leaves.
    pub closed spec fn key(&self) -> Seq<char> {
        self.repo_key@
    }

    /// The path below which the nodes stand.
    pub closed spec fn base_path(&self) -> Seq<char> {
        self.base@
    }

    /// The nodes by their components.
    pub closed spec fn nodes(&self) -> Map<Seq<Seq<char>>, Node> {
        self.nodes@
    }

    /// The nodes in the order of their components.
    pub closed spec fn node_entries(&self) -> Seq<Entry<Vec<String>, Node>> {
        self.nodes.entries()
    }

    /// The kind holds no `>`, no two nodes share their components, and each
    /// node is well formed where it stands.
    pub closed spec fn wf(&self) -> bool {
        &&& !self.repo_key@.contains('>')
        &&& self.nodes.wf()
        &&& forall|p: Seq<Seq<char>>| #[trigger]
            self.nodes@.contains_key(p) ==> self.nodes@[p].wf_at(p)
    }

    pub open spec fn has_node(&self, path: Seq<Seq<char>>) -> bool {
        self.nodes().contains_key(path)
    }

    /// The text of the URL of the node at `path`: that of the URL for which
    /// the node came to be.
    pub open spec fn node_url(&self, path: Seq<Seq<char>>) -> Seq<char> {
        self.nodes()[path].url()@
    }

    /// Whether `after` has the kind, the base and the nodes of `self`, each
    /// with the URL it had.
    pub open spec fn same_nodes(&self, after: &UrlRepo) -> bool {
        &&& after.key() == self.key()
        &&& after.base_path() == self.base_path()
        &&& forall|p: Seq<Seq<char>>| after.has_node(p) == self.has_node(p)
        &&& forall|p: Seq<Seq<char>>|
            self.has_node(p) ==> #[trigger] after.node_url(p) == self.node_url(p)
    }

    /// Whether `after` has the kind, the base and the nodes of `self`, each
    /// with the URL it had, and besides them a node at `path`, which has
    /// the URL of text `url` if it is new.
    pub open spec fn grown_by(&self, after: &UrlRepo, path: Seq<Seq<char>>, url: Seq<char>) -> bool {
        &&& after.key() == self.key()
        &&& after.base_path() == self.base_path()
        &&& forall|p: Seq<Seq<char>>| after.has_node(p) == (self.has_node(p) || p == path)
        &&& forall|p: Seq<Seq<char>>|
            self.has_node(p) ==> #[trigger] after.node_url(p) == self.node_url(p)
        &&& !self.has_node(path) ==> after.node_url(path) == url
    }

    /// The leaves of the node at `path`, by name; none where there is no node.
    pub open spec fn leaves(&self, path: Seq<Seq<char>>) -> Map<Seq<char>, Vec<u8>> {
        if self.has_node(path) {
            self.nodes()[path].leaves()
        } else {
            Map::empty()
        }
    }

    /// The bytes of the leaf `name` of the node at `path`, if there is one.
    pub open spec fn leaf(&self, path: Seq<Seq<char>>, name: Seq<char>) -> Option<Seq<u8>> {
        if self.leaves(path).contains_key(name) {
            Some(self.leaves(path)[name]@)
        } else {
            None
        }
    }

    /// An empty store for leaves of kind `repo_key`, below `base`. A kind
    /// that holds `>` is refused: the names of its leaves could not be told
    /// apart again.
    pub fn new(repo_key: &str, base: &str) -> (r: Result<UrlRepo, RepoError>)
        ensures
            match r {
                Ok(repo) => !repo_key@.contains('>') && repo.wf() && repo.key() == repo_key@
                    && repo.base_path() == base@ && forall|p: Seq<Seq<char>>| !repo.has_node(p),
                Err(e) => e == RepoError::InvariantViolation && repo_key@.contains('>'),
            },
    {
        let chars = chars_of(repo_key);
        if find_char(&chars, '>').is_some() {
            return Err(RepoError::InvariantViolation);
        }
        Ok(UrlRepo { repo_key: repo_key.to_owned(), base: base.to_owned(), nodes: SortedMap::new() })
    }

    pub fn base(&self) -> (s: &str)
        ensures
            s@ == self.base_path(),
    {
        self.base.as_str()
    }

    pub fn repo_key(&self) -> (s: &str)
        ensures
            s@ == self.key(),
    {
        self.repo_key.as_str()
    }

    /// The path of the node of `url`: the base, then each component of the
    /// URL with a `/` before it.
    pub fn node_path(&self, url: &Url) -> (path: String)
        ensures
            path@ == self.base_path() + slashed(url.components()),
    {
        url.to_path(self.base.as_str())
    }

    /// The path of the leaf `name` of `url`: the path of the node, a `/`,
    /// and the file name of the leaf.
    pub fn leaf_path(&self, url: &Url, name: &str) -> (path: String)
        ensures
            path@ == self.base_path() + slashed(url.components()) + seq!['/'] + leaf_file_name(
                self.key(),
                name@,
            ),
    {
        let mut path = self.node_path(url);
        let ghost node = path@;
        path.push('/');
        path.push('<');
        path.append(self.repo_key.as_str());
        path.push('>');
        path.append(name);
        assert(path@ =~= node + seq!['/'] + leaf_file_name(self.key(), name@));
        path
    }

    /// Writes a new leaf. The node of `url` comes to be if it was not there.
    pub fn create_leaf(&mut self, url: &Url, name: &str, content: Vec<u8>) -> (r: Result<
        (),
        RepoError,
    >)
        requires
            old(self).wf(),
            url.wf(),
        ensures
            final(self).wf(),
            final(self).key() == old(self).key(),
            final(self).base_path() == old(self).base_path(),
            match r {
                Ok(()) => {
                    &&& old(self).leaf(url.components(), name@) is None
                    &&& old(self).grown_by(final(self), url.components(), url@)
                    &&& forall|p: Seq<Seq<char>>|
                        final(self).has_node(p) == (old(self).has_node(p) || p
                            == url.components())
                    &&& forall|p: Seq<Seq<char>>, n: Seq<char>|
                        final(self).leaf(p, n) == if p == url.components() && n == name@ {
                            Some(content@)
                        } else {
                            old(self).leaf(p, n)
                        }
                },
                Err(e) => e == RepoError::AlreadyExists && old(self).leaf(
                    url.components(),
                    name@,
                ) is Some && *final(self) == *old(self),
            },
    {
        let key = url.node_key();
        let leaf_name = name.to_owned();
        let ghost path = url.components();
        assert(key.key() =~= path);
        match self.nodes.get(&key) {
            Some(node) => {
                if node.leaves.find(&leaf_name).is_some() {
                    return Err(RepoError::AlreadyExists);
                }
            },
            None => {},
        }
        let mut node = match self.nodes.remove(&key) {
            Some(node) => node,
            None => Node { url: url.clone(), leaves: SortedMap::new() },
        };
        let ghost old_leaves = node.leaves@;
        assert(old_leaves == old(self).leaves(path));
        node.leaves.insert(leaf_name, content);
        self.nodes.insert(key, node);
        proof {
            assert(self.nodes@ =~= old(self).nodes@.insert(path, node));
            assert forall|p: Seq<Seq<char>>, n: Seq<char>|
                self.leaf(p, n) == if p == path && n == name@ {
                    Some(content@)
                } else {
                    old(self).leaf(p, n)
                } by {
                if p == path {
                    assert(self.leaves(p) == old_leaves.insert(name@, content));
                }
            }
        }
        Ok(())
    }

    /// The bytes of a leaf.
    pub fn read_leaf(&self, url: &Url, name: &str) -> (r: Result<Vec<u8>, RepoError>)
        requires
            self.wf(),
            url.wf(),
        ensures
            match r {
                Ok(content) => self.leaf(url.components(), name@) == Some(content@),
                Err(e) => e == RepoError::NotFound && self.leaf(url.components(), name@) is None,
            },
    {
        let key = url.node_key();
        let leaf_name = name.to_owned();
        assert(key.key() =~= url.components());
        match self.nodes.get(&key) {
            None => Err(RepoError::NotFound),
            Some(node) => match node.leaves.get(&leaf_name) {
                None => Err(RepoError::NotFound),
                Some(content) => Ok(slice_to_vec(content.as_slice())),
            },
        }
    }

    /// Whether the node of `url` is there.
    pub fn has_node_for(&self, url: &Url) -> (r: bool)
        requires
            self.wf(),
            url.wf(),
        ensures
            r == self.has_node(url.components()),
    {
        let key = url.node_key();
        assert(key.key() =~= url.components());
        self.nodes.find(&key).is_some()
    }

    /// Whether the leaf is there.
    pub fn has_leaf(&self, url: &Url, name: &str) -> (r: bool)
        requires
            self.wf(),
            url.wf(),
        ensures
            r == self.leaf(url.components(), name@) is Some,
    {
        let key = url.node_key();
        let leaf_name = name.to_owned();
        assert(key.key() =~= url.components());
        match self.nodes.get(&key) {
            None => false,
            Some(node) => node.leaves.find(&leaf_name).is_some(),
        }
    }

    /// Removes a leaf. Its node stays.
    pub fn remove_leaf(&mut self, url: &Url, name: &str) -> (r: Result<(), RepoError>)
        requires
            old(self).wf(),
            url.wf(),
        ensures
            final(self).wf(),
            final(self).key() == old(self).key(),
            final(self).base_path() == old(self).base_path(),
            match r {
                Ok(()) => {
                    &&& old(self).leaf(url.components(), name@) is Some
                    &&& old(self).same_nodes(final(self))
                    &&& forall|p: Seq<Seq<char>>| final(self).has_node(p) == old(self).has_node(p)
                    &&& forall|p: Seq<Seq<char>>, n: Seq<char>|
                        final(self).leaf(p, n) == if p == url.components() && n == name@ {
                            None
                        } else {
                            old(self).leaf(p, n)
                        }
                },
                Err(e) => e == RepoError::NotFound && old(self).leaf(url.components(), name@)
                    is None && *final(self) == *old(self),
            },
    {
        let key = url.node_key();
        let leaf_name = name.to_owned();
        let ghost path = url.components();
        assert(key.key() =~= path);
        match self.nodes.get(&key) {
            Some(node) => {
                if node.leaves.find(&leaf_name).is_none() {
                    return Err(RepoError::NotFound);
                }
            },
            None => {
                return Err(RepoError::NotFound);
            },
        }
        let mut node = match self.nodes.remove(&key) {
            Some(node) => node,
            None => Node { url: url.clone(), leaves: SortedMap::new() },
        };
        let ghost old_leaves = node.leaves@;
        node.leaves.remove(&leaf_name);
        self.nodes.insert(key, node);
        proof {
            assert(self.nodes@ =~= old(self).nodes@.insert(path, node));
            assert forall|p: Seq<Seq<char>>, n: Seq<char>|
                self.leaf(p, n) == if p == path && n == name@ {
                    None
                } else {
                    old(self).leaf(p, n)
                } by {
                if p == path {
                    assert(self.leaves(p) == old_leaves.remove(name@));
                }
            }
        }
        Ok(())
    }
}

/// Whether the components `a` begin with all of `b`.
pub fn is_below(a: &Vec<String>, b: &Vec<String>) -> (r: bool)
    ensures
        r == below(texts(a@), texts(b@)),
{
    if b.len() > a.len() {
        return false;
    }
    let mut i: usize = 0;
    while i < b.len()
        invariant
            i <= b.len(),
            b.len() <= a.len(),
            forall|j: int| 0 <= j < i ==> (#[trigger] a@[j])@ == b@[j]@,
        decreases b.len() - i,
    {
        if a[i] != b[i] {
            assert(texts(a@).take(b.len() as int)[i as int] != texts(b@)[i as int]);
            return false;
        }
        i += 1;
    }
    assert(texts(a@).take(b.len() as int) =~= texts(b@));
    true
}

impl Node {
    /// The names of the leaves of the node, in order.
    pub fn leaf_names(&self) -> (out: Vec<String>)
        requires
            self.wf_at(self.url().components()),
        ensures
            lists_names(out@, self.leaves()),
    {
        let mut out: Vec<String> = Vec::new();
        let mut j: usize = 0;
        while j < self.leaves.len()
            invariant
                j <= self.leaves.spec_len(),
                out@.len() == j,
                forall|k: int| 0 <= k < j ==> (#[trigger] out@[k])@ == self.leaves.entries()[k].key@,
            decreases self.leaves.spec_len() - j,
        {
            out.push(self.leaves.entry(j).key.clone());
            j += 1;
        }
        proof {
            self.leaves.lemma_view();
            let es = self.leaves.entries();
            assert forall|i: int| 0 <= i < out@.len() implies self.leaves().contains_key(
                #[trigger] out@[i]@,
            ) by {
                assert(self.leaves@.contains_key(es[i].key.key()));
            }
            assert forall|n: Seq<char>| self.leaves().contains_key(n) implies exists|i: int|
                0 <= i < out@.len() && #[trigger] out@[i]@ == n by {
                let i = crate::sorted_map::position(es, n).unwrap();
                assert(out@[i]@ == n);
            }
            assert forall|a: int, b: int| 0 <= a < b < out@.len() implies text_lt(
                #[trigger] out@[a]@,
                #[trigger] out@[b]@,
            ) by {
                assert(String::before(es[a].key.key(), es[b].key.key()));
            }
        }
        out
    }

    /// The leaves of the node, in the order of their names.
    pub fn leaf_list(&self) -> (out: Vec<Leaf>)
        requires
            self.wf_at(self.url().components()),
        ensures
            lists_leaves(out@, self.leaves()),
            out@.len() == self.leaf_entries().len(),
            forall|j: int|
                0 <= j < out@.len() ==> (#[trigger] out@[j]).name@ == self.leaf_entries()[j].key@
                    && out@[j].content@ == self.leaf_entries()[j].value@,
    {
        let mut out: Vec<Leaf> = Vec::new();
        let mut j: usize = 0;
        while j < self.leaves.len()
            invariant
                j <= self.leaves.spec_len(),
                out@.len() == j,
                forall|k: int|
                    0 <= k < j ==> (#[trigger] out@[k]).name@ == self.leaves.entries()[k].key@
                        && out@[k].content@ == self.leaves.entries()[k].value@,
            decreases self.leaves.spec_len() - j,
        {
            let e = self.leaves.entry(j);
            out.push(Leaf { name: e.key.clone(), content: slice_to_vec(e.value.as_slice()) });
            j += 1;
        }
        proof {
            self.leaves.lemma_view();
            let es = self.leaves.entries();
            assert forall|i: int| 0 <= i < out@.len() implies self.leaves().contains_key(
                #[trigger] out@[i].name@,
            ) && self.leaves()[out@[i].name@]@ == out@[i].content@ by {
                assert(self.leaves@.contains_key(es[i].key.key()));
            }
            assert forall|n: Seq<char>| self.leaves().contains_key(n) implies exists|i: int|
                0 <= i < out@.len() && #[trigger] out@[i].name@ == n by {
                let i = crate::sorted_map::position(es, n).unwrap();
                assert(out@[i].name@ == n);
            }
            assert forall|a: int, b: int| 0 <= a < b < out@.len() implies text_lt(
                #[trigger] out@[a].name@,
                #[trigger] out@[b].name@,
            ) by {
                assert(String::before(es[a].key.key(), es[b].key.key()));
            }
        }
        out
    }
}

/// Whether `x` stands before `y` in a listing: its node comes first in the
/// order of paths, or both are of one node and its name comes first.
pub open spec fn listed_before(x: LocatedView, y: LocatedView) -> bool {
    path_lt(x.path, y.path) || (x.path == y.path && text_lt(x.name, y.name))
}

/// Whether the keys of `entries` strictly increase and each node is well
/// formed under its key.
pub closed spec fn nodes_wf(entries: Seq<Entry<Vec<String>, Node>>) -> bool {
    &&& crate::sorted_map::strictly_sorted(entries)
    &&& forall|k: int| 0 <= k < entries.len() ==> (#[trigger] entries[k]).value.wf_at(entries[k].key.key())
}

proof fn lemma_listing_source(entries: Seq<Entry<Vec<String>, Node>>, base: Seq<Seq<char>>, a: int) -> (k: int)
    requires
        nodes_wf(entries),
        0 <= a < listing(entries, base).len(),
    ensures
        0 <= k < entries.len(),
        listing(entries, base)[a].path == entries[k].key.key(),
        below(entries[k].key.key(), base),
    decreases entries.len(),
{
    let rest = entries.drop_last();
    if a < listing(rest, base).len() {
        assert(nodes_wf(rest));
        lemma_listing_source(rest, base, a)
    } else {
        entries.len() - 1
    }
}

/// In the order of paths a node comes before the nodes below it.
pub proof fn lemma_node_before_nodes_below(above: Seq<Seq<char>>, node: Seq<Seq<char>>)
    requires
        below(node, above),
        node != above,
    ensures
        path_lt(above, node),
{
    if above.len() == node.len() {
        assert(node.take(above.len() as int) =~= node);
    }
    crate::ordered::lemma_order_total::<String>();
    crate::ordered::lemma_lex_prefix(above, node, crate::ordered::order_of::<String>());
}

/// A listing holds what each node at or below the base contributes.
proof fn lemma_listing_holds(
    entries: Seq<Entry<Vec<String>, Node>>,
    base: Seq<Seq<char>>,
    i: int,
    j: int,
) -> (k: int)
    requires
        0 <= i < entries.len(),
        0 <= j < entries[i].value.leaf_entries().len(),
        below(entries[i].value.url().components(), base),
    ensures
        0 <= k < listing(entries, base).len(),
        listing(entries, base)[k] == entries[i].value.listing()[j],
    decreases entries.len(),
{
    let rest = entries.drop_last();
    if i == entries.len() - 1 {
        listing(rest, base).len() + j
    } else {
        assert(rest[i] == entries[i]);
        lemma_listing_holds(rest, base, i, j)
    }
}

/// Whether `x` is what a node of `entries` contributes to a listing for
/// one of its leaves.
pub open spec fn comes_from(entries: Seq<Entry<Vec<String>, Node>>, x: LocatedView) -> bool {
    exists|i: int, j: int|
        0 <= i < entries.len() && 0 <= j < entries[i].value.leaf_entries().len() && x
            == #[trigger] entries[i].value.listing()[j]
}

proof fn lemma_listing_from_entries(entries: Seq<Entry<Vec<String>, Node>>, base: Seq<Seq<char>>)
    ensures
        forall|a: int|
            0 <= a < listing(entries, base).len() ==> comes_from(
                entries,
                #[trigger] listing(entries, base)[a],
            ),
    decreases entries.len(),
{
    if entries.len() > 0 {
        let rest = entries.drop_last();
        lemma_listing_from_entries(rest, base);
        let head = listing(rest, base);
        let l = listing(entries, base);
        assert forall|a: int| 0 <= a < l.len() implies comes_from(entries, #[trigger] l[a]) by {
            if a < head.len() {
                assert(l[a] == head[a]);
                assert(comes_from(rest, head[a]));
                let (i, j) = choose|i: int, j: int|
                    0 <= i < rest.len() && 0 <= j < rest[i].value.leaf_entries().len() && head[a]
                        == #[trigger] rest[i].value.listing()[j];
                assert(rest[i] == entries[i]);
                assert(l[a] == entries[i].value.listing()[j]);
            } else {
                let i = entries.len() - 1;
                let j = a - head.len();
                assert(l[a] == entries[i].value.listing()[j]);
            }
        }
    }
}

/// A listing goes through the nodes in the order of their paths, and
/// through the leaves of each node in the order of their names.
pub proof fn lemma_listing_ordered(entries: Seq<Entry<Vec<String>, Node>>, base: Seq<Seq<char>>)
    requires
        nodes_wf(entries),
    ensures
        forall|a: int, b: int|
            0 <= a < b < listing(entries, base).len() ==> listed_before(
                #[trigger] listing(entries, base)[a],
                #[trigger] listing(entries, base)[b],
            ),
        forall|a: int| 0 <= a < listing(entries, base).len() ==> below(#[trigger] listing(entries, base)[a].path, base),
    decreases entries.len(),
{
    let l = listing(entries, base);
    if entries.len() > 0 {
        let rest = entries.drop_last();
        let last = entries.last();
        assert(nodes_wf(rest));
        lemma_listing_ordered(rest, base);
        let head = listing(rest, base);
        assert forall|a: int, b: int| 0 <= a < b < l.len() implies listed_before(
            #[trigger] l[a],
            #[trigger] l[b],
        ) by {
            if b < head.len() {
                assert(l[a] == head[a] && l[b] == head[b]);
            } else if a < head.len() {
                let k = lemma_listing_source(rest, base, a);
                assert(l[a] == head[a]);
                assert(Vec::<String>::before(entries[k].key.key(), last.key.key()));
                assert(l[b] == last.value.listing()[b - head.len()]);
            } else {
                let es = last.value.leaf_entries();
                assert(l[a] == last.value.listing()[a - head.len()]);
                assert(l[b] == last.value.listing()[b - head.len()]);
                assert(String::before(es[a - head.len()].key.key(), es[b - head.len()].key.key()));
            }
        }
        assert forall|a: int| 0 <= a < l.len() implies below(#[trigger] l[a].path, base) by {
            if a < head.len() {
                assert(l[a] == head[a]);
            } else {
                assert(l[a] == last.value.listing()[a - head.len()]);
            }
        }
    }
}

impl UrlRepo {
    /// The leaves of the node of `url`, in the order of their names.
    pub fn read_leaves_for_url(&self, url: &Url) -> (r: Result<Vec<Leaf>, RepoError>)
        requires
            self.wf(),
            url.wf(),
        ensures
            match r {
                Ok(v) => self.has_node(url.components()) && lists_leaves(
                    v@,
                    self.leaves(url.components()),
                ),
                Err(e) => e == RepoError::NotFound && !self.has_node(url.components()),
            },
    {
        let key = url.node_key();
        assert(key.key() =~= url.components());
        match self.nodes.get(&key) {
            None => Err(RepoError::NotFound),
            Some(node) => {
                assert(self.nodes@.contains_key(url.components()));
                assert(self.nodes@[url.components()] == *node);
                Ok(node.leaf_list())
            },
        }
    }

    /// The names of the leaves of the node of `url`, in order.
    pub fn leaf_names_for_url(&self, url: &Url) -> (r: Result<Vec<String>, RepoError>)
        requires
            self.wf(),
            url.wf(),
        ensures
            match r {
                Ok(v) => self.has_node(url.components()) && lists_names(
                    v@,
                    self.leaves(url.components()),
                ),
                Err(e) => e == RepoError::NotFound && !self.has_node(url.components()),
            },
    {
        let key = url.node_key();
        assert(key.key() =~= url.components());
        match self.nodes.get(&key) {
            None => Err(RepoError::NotFound),
            Some(node) => {
                assert(self.nodes@.contains_key(url.components()));
                assert(self.nodes@[url.components()] == *node);
                Ok(node.leaf_names())
            },
        }
    }

    /// The leaves of the node of `url`, sorted by name.
    pub fn read_leaves_sorted_for_url(&self, url: &Url) -> (r: Result<Vec<Leaf>, RepoError>)
        requires
            self.wf(),
            url.wf(),
        ensures
            match r {
                Ok(v) => self.has_node(url.components()) && lists_leaves(
                    v@,
                    self.leaves(url.components()),
                ),
                Err(e) => e == RepoError::NotFound && !self.has_node(url.components()),
            },
    {
        self.read_leaves_for_url(url)
    }

    /// What `list_all` yields for `base`.
    pub open spec fn listing(&self, base: Seq<Seq<char>>) -> Seq<LocatedView> {
        listing(self.node_entries(), base)
    }

    /// Every leaf at or below the node of `base_url`: node after node in the
    /// order of their paths, and the leaves of each node in the order of
    /// their names.
    pub fn list_all(&self, base_url: &Url) -> (out: Vec<Located>)
        requires
            self.wf(),
            base_url.wf(),
        ensures
            located_views(out@) == self.listing(base_url.components()),
    {
        let base_key = base_url.node_key();
        let ghost base = base_url.components();
        let ghost entries = self.nodes.entries();
        let mut out: Vec<Located> = Vec::new();
        let mut i: usize = 0;
        proof {
            self.nodes.lemma_view();
            assert(entries.take(0) =~= Seq::<Entry<Vec<String>, Node>>::empty());
            assert(located_views(out@) =~= listing(entries.take(0), base));
        }
        while i < self.nodes.len()
            invariant
                self.wf(),
                i <= self.nodes.spec_len(),
                entries == self.nodes.entries(),
                base == texts(base_key@),
                located_views(out@) == listing(entries.take(i as int), base),
                forall|k: int|
                    0 <= k < entries.len() ==> self.nodes@.contains_key(
                        #[trigger] entries[k].key.key(),
                    ) && self.nodes@[entries[k].key.key()] == entries[k].value,
            decreases self.nodes.spec_len() - i,
        {
            let e = self.nodes.entry(i);
            let ghost before = located_views(out@);
            proof {
                assert(entries.take(i + 1).drop_last() =~= entries.take(i as int));
                assert(entries.take(i + 1).last() == entries[i as int]);
                assert(e.value.wf_at(e.key.key()));
                assert(e.key.key() =~= texts(e.key@));
            }
            if is_below(&e.key, &base_key) {
                let mut j: usize = 0;
                while j < e.value.leaves.len()
                    invariant
                        j <= e.value.leaves.spec_len(),
                        e.value.url.wf(),
                        located_views(out@) == before + e.value.listing().take(j as int),
                    decreases e.value.leaves.spec_len() - j,
                {
                    let l = e.value.leaves.entry(j);
                    let item = Located {
                        url: e.value.url.clone(),
                        name: l.key.clone(),
                        content: slice_to_vec(l.value.as_slice()),
                    };
                    proof {
                        assert(item@ == e.value.listing()[j as int]);
                        assert(e.value.listing().take(j + 1) =~= e.value.listing().take(
                            j as int,
                        ).push(item@));
                    }
                    let ghost views = located_views(out@);
                    out.push(item);
                    assert(located_views(out@) =~= views.push(item@));
                    j += 1;
                }
                assert(e.value.listing().take(j as int) =~= e.value.listing());
            }
            i += 1;
        }
        assert(entries.take(i as int) =~= entries);
        out
    }

    /// The URLs of the nodes at or below the node of `base_url`, in the
    /// order of their paths.
    pub fn node_urls(&self, base_url: &Url) -> (out: Vec<Url>)
        requires
            self.wf(),
            base_url.wf(),
        ensures
            forall|i: int|
                0 <= i < out.len() ==> (#[trigger] out[i]).wf() && self.has_node(
                    out[i].components(),
                ) && below(out[i].components(), base_url.components()) && out[i]@
                    == self.node_url(out[i].components()),
            forall|p: Seq<Seq<char>>|
                self.has_node(p) && below(p, base_url.components()) ==> exists|i: int|
                    0 <= i < out.len() && (#[trigger] out[i]).components() == p,
            forall|i: int, j: int|
                0 <= i < j < out.len() ==> path_lt(
                    (#[trigger] out[i]).components(),
                    (#[trigger] out[j]).components(),
                ),
    {
        let base_key = base_url.node_key();
        let ghost base = base_url.components();
        let ghost entries = self.nodes.entries();
        let mut out: Vec<Url> = Vec::new();
        let ghost mut from: Seq<int> = Seq::empty();
        let mut i: usize = 0;
        proof {
            self.nodes.lemma_view();
        }
        while i < self.nodes.len()
            invariant
                self.wf(),
                i <= self.nodes.spec_len(),
                entries == self.nodes.entries(),
                base == texts(base_key@),
                from.len() == out.len(),
                forall|k: int|
                    0 <= k < entries.len() ==> self.nodes@.contains_key(
                        #[trigger] entries[k].key.key(),
                    ) && self.nodes@[entries[k].key.key()] == entries[k].value,
                forall|a: int| 0 <= a < out.len() ==> 0 <= #[trigger] from[a] < i,
                forall|a: int|
                    0 <= a < out.len() ==> (#[trigger] out[a]).wf() && out[a].components()
                        == entries[from[a]].key.key() && below(out[a].components(), base)
                        && out[a]@ == entries[from[a]].value.url()@,
                forall|a: int, b: int|
                    0 <= a < b < out.len() ==> #[trigger] from[a] < #[trigger] from[b],
                forall|k: int|
                    0 <= k < i && below(#[trigger] entries[k].key.key(), base) ==> exists|a: int|
                        0 <= a < out.len() && #[trigger] from[a] == k,
            decreases self.nodes.spec_len() - i,
        {
            let e = self.nodes.entry(i);
            proof {
                assert(e.value.wf_at(e.key.key()));
                assert(e.key.key() =~= texts(e.key@));
            }
            if is_below(&e.key, &base_key) {
                let ghost prev = from;
                let ghost prev_out = out@;
                let url = e.value.url.clone();
                out.push(url);
                proof {
                    from = from.push(i as int);
                    assert(out@ == prev_out.push(url));
                    assert forall|a: int| 0 <= a < out.len() implies 0 <= #[trigger] from[a] < i
                        + 1 by {
                        if a < prev.len() {
                            assert(from[a] == prev[a]);
                        }
                    }
                    assert forall|a: int| 0 <= a < out.len() implies (#[trigger] out[a]).wf()
                        && out[a].components() == entries[from[a]].key.key() && below(
                        out[a].components(),
                        base,
                    ) && out[a]@ == entries[from[a]].value.url()@ by {
                        if a < prev.len() {
                            assert(out[a] == prev_out[a]);
                            assert(from[a] == prev[a]);
                        }
                    }
                    assert forall|a: int, b: int| 0 <= a < b < out.len() implies #[trigger] from[a]
                        < #[trigger] from[b] by {
                        assert(from[a] == prev[a]);
                        if b < prev.len() {
                            assert(from[b] == prev[b]);
                        }
                    }
                    assert forall|k: int|
                        0 <= k < i + 1 && below(#[trigger] entries[k].key.key(), base) implies exists|
                        a: int,
                    |
                        0 <= a < out.len() && #[trigger] from[a] == k by {
                        if k < i {
                            let a = choose|a: int| 0 <= a < prev.len() && #[trigger] prev[a] == k;
                            assert(from[a] == k);
                        } else {
                            assert(from[out.len() - 1] == k);
                        }
                    }
                }
            }
            i += 1;
        }
        proof {
            assert forall|p: Seq<Seq<char>>| self.has_node(p) && below(p, base) implies exists|
                a: int,
            |
                0 <= a < out.len() && (#[trigger] out[a]).components() == p by {
                let k = crate::sorted_map::position(entries, p).unwrap();
                assert(entries[k].key.key() == p);
                let a = choose|a: int| 0 <= a < out.len() && #[trigger] from[a] == k;
                assert(out[a].components() == p);
            }
            assert forall|a: int, b: int| 0 <= a < b < out.len() implies path_lt(
                (#[trigger] out[a]).components(),
                (#[trigger] out[b]).components(),
            ) by {
                assert(from[a] < from[b]);
                assert(0 <= from[a] && from[b] < entries.len());
                assert(Vec::<String>::before(
                    entries[from[a]].key.key(),
                    entries[from[b]].key.key(),
                ));
            }
        }
        out
    }

    /// What `list_all` yields is stored: each entry is a leaf of the node
    /// at its path.
    pub proof fn lemma_listing_stored(&self, base: Seq<Seq<char>>)
        requires
            self.wf(),
        ensures
            forall|k: int|
                0 <= k < self.listing(base).len() ==> self.leaf(
                    #[trigger] self.listing(base)[k].path,
                    self.listing(base)[k].name,
                ) == Some(self.listing(base)[k].content) && self.listing(base)[k].url
                    == self.node_url(self.listing(base)[k].path),
    {
        self.nodes.lemma_view();
        assert(nodes_wf(self.node_entries()));
        lemma_listing_from_entries(self.node_entries(), base);
        assert forall|k: int| 0 <= k < self.listing(base).len() implies self.leaf(
            #[trigger] self.listing(base)[k].path,
            self.listing(base)[k].name,
        ) == Some(self.listing(base)[k].content) && self.listing(base)[k].url == self.node_url(
            self.listing(base)[k].path,
        ) by {
            let x = self.listing(base)[k];
            assert(comes_from(self.node_entries(), x));
            let (i, j) = choose|i: int, j: int|
                0 <= i < self.node_entries().len() && 0 <= j
                    < self.node_entries()[i].value.leaf_entries().len() && x
                    == #[trigger] self.node_entries()[i].value.listing()[j];
            let node = self.node_entries()[i].value;
            assert(self.nodes@.contains_key(self.node_entries()[i].key.key()));
            assert(node.wf_at(self.node_entries()[i].key.key()));
            node.leaves.lemma_view();
            assert(node.leaves@.contains_key(node.leaf_entries()[j].key.key()));
        }
    }

    /// `list_all` yields every leaf of every node at or below the base.
    pub proof fn lemma_listing_complete(&self, base: Seq<Seq<char>>, path: Seq<Seq<char>>, name: Seq<char>)
        requires
            self.wf(),
            below(path, base),
            self.leaf(path, name) is Some,
        ensures
            exists|k: int|
                0 <= k < self.listing(base).len() && #[trigger] self.listing(base)[k].path == path
                    && self.listing(base)[k].name == name && Some(self.listing(base)[k].content)
                    == self.leaf(path, name),
    {
        self.nodes.lemma_view();
        let entries = self.node_entries();
        let i = crate::sorted_map::position(entries, path).unwrap();
        let node = entries[i].value;
        assert(self.nodes@[path] == node);
        assert(node.wf_at(path));
        node.leaves.lemma_view();
        let j = crate::sorted_map::position(node.leaf_entries(), name).unwrap();
        let k = lemma_listing_holds(entries, base, i, j);
        let x = self.listing(base)[k];
        assert(x == node.listing()[j]);
        assert(node.leaf_entries()[j].key.key() == name);
        assert(node.leaves@.contains_key(name));
        assert(node.leaves@[name] == node.leaf_entries()[j].value);
        assert(x.path == path && x.name == name);
        assert(self.leaf(path, name) == Some(x.content));
    }

    /// `list_all` goes through the nodes in the order of their paths, a
    /// node before the nodes below it, and through the leaves of each node
    /// in the order of their names; and it yields only leaves at or below
    /// the base.
    pub proof fn lemma_list_all_ordered(&self, base: Seq<Seq<char>>)
        requires
            self.wf(),
        ensures
            forall|a: int, b: int|
                0 <= a < b < self.listing(base).len() ==> listed_before(
                    #[trigger] self.listing(base)[a],
                    #[trigger] self.listing(base)[b],
                ),
            forall|a: int|
                0 <= a < self.listing(base).len() ==> below(
                    #[trigger] self.listing(base)[a].path,
                    base,
                ),
    {
        self.nodes.lemma_view();
        assert(nodes_wf(self.node_entries()));
        lemma_listing_ordered(self.node_entries(), base);
    }
}

} // verus!
