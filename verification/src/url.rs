//! URLs as repository keys: the normalised text, and the path of directory
//! names that the URL stands for.

use vstd::prelude::*;
use crate::ordered::{text_lt, Ordered};
use vstd::std_specs::cmp::PartialEqSpecImpl;
use crate::text::{
    begins_with, chars_of, clone_strings, no_slash, pieces, push_slashed, slashed, split_pieces,
    texts,
};

verus! {

/// `url::ParseError`, the reason for which the `url` crate rejects a text.
/// Nothing is claimed of what it holds.
#[verifier::external_type_specification]
#[verifier::external_body]
pub struct ExUrlParseError(url::ParseError);

/// What the `url` crate makes of a text: its serialisation, host, path and
/// fragment, and whether it cannot be a base.
pub struct UrlParts {
    pub text: String,
    pub host: Option<String>,
    pub path: String,
    pub fragment: Option<String>,
    pub cannot_be_a_base: bool,
}

/// The parts as mathematical values.
pub ghost struct PartsView {
    pub text: Seq<char>,
    pub host: Option<Seq<char>>,
    pub path: Seq<char>,
    pub fragment: Option<Seq<char>>,
    pub cannot_be_a_base: bool,
}

pub open spec fn opt_text(s: Option<String>) -> Option<Seq<char>> {
    match s {
        Some(t) => Some(t@),
        None => None,
    }
}

impl UrlParts {
    pub open spec fn view(&self) -> PartsView {
        PartsView {
            text: self.text@,
            host: opt_text(self.host),
            path: self.path@,
            fragment: opt_text(self.fragment),
            cannot_be_a_base: self.cannot_be_a_base,
        }
    }
}

/// The parts of the URL that the `url` crate parses out of a text; `None`
/// where it rejects the text.
pub uninterp spec fn parsed_url(text: Seq<char>) -> Option<PartsView>;

/// The parts of the URL that the `url` crate makes by appending a path
/// segment to the URL it parses out of a text; `None` where it rejects the
/// text or the URL cannot be a base.
pub uninterp spec fn url_with_segment(text: Seq<char>, segment: Seq<char>) -> Option<PartsView>;

/// The parts of the URL that the `url` crate makes by removing the last path
/// segment of the URL it parses out of a text; `None` where it rejects the
/// text or the URL cannot be a base.
pub uninterp spec fn url_without_segment(text: Seq<char>) -> Option<PartsView>;

/// Calls `url::Url::parse` and reads the result with `as_str`, `host_str`,
/// `path`, `fragment` and `cannot_be_a_base`. The contract claims only that
/// the outcome is the one named `parsed_url` for this text.
#[verifier::external_body]
fn url_parse(text: &str) -> (r: Result<UrlParts, url::ParseError>)
    ensures
        match r {
            Ok(p) => parsed_url(text@) == Some(p@),
            Err(_) => parsed_url(text@) is None,
        },
{
    let u = url::Url::parse(text)?;
    Ok(UrlParts {
        text: u.as_str().to_owned(),
        host: u.host_str().map(str::to_owned),
        path: u.path().to_owned(),
        fragment: u.fragment().map(str::to_owned),
        cannot_be_a_base: u.cannot_be_a_base(),
    })
}

/// Parses the text with `url::Url::parse`, appends the segment with
/// `path_segments_mut` and `PathSegmentsMut::push`, and reads the result as
/// `url_parse` does. The contract claims only that the outcome is the one
/// named `url_with_segment` for this text and segment.
#[verifier::external_body]
fn url_push(text: &str, segment: &str) -> (r: Option<UrlParts>)
    ensures
        r is Some == url_with_segment(text@, segment@) is Some,
        r is Some ==> url_with_segment(text@, segment@) == Some(r->0@),
{
    let mut u = url::Url::parse(text).ok()?;
    u.path_segments_mut().ok()?.push(segment);
    Some(UrlParts {
        text: u.as_str().to_owned(),
        host: u.host_str().map(str::to_owned),
        path: u.path().to_owned(),
        fragment: u.fragment().map(str::to_owned),
        cannot_be_a_base: u.cannot_be_a_base(),
    })
}

/// Parses the text with `url::Url::parse`, removes the last segment with
/// `path_segments_mut` and `PathSegmentsMut::pop`, and reads the result as
/// `url_parse` does. The contract claims only that the outcome is the one
/// named `url_without_segment` for this text.
#[verifier::external_body]
fn url_pop(text: &str) -> (r: Option<UrlParts>)
    ensures
        r is Some == url_without_segment(text@) is Some,
        r is Some ==> url_without_segment(text@) == Some(r->0@),
{
    let mut u = url::Url::parse(text).ok()?;
    u.path_segments_mut().ok()?.pop();
    Some(UrlParts {
        text: u.as_str().to_owned(),
        host: u.host_str().map(str::to_owned),
        path: u.path().to_owned(),
        fragment: u.fragment().map(str::to_owned),
        cannot_be_a_base: u.cannot_be_a_base(),
    })
}

/// Why a text is no URL of a repository.
#[derive(Debug)]
pub enum UrlError {
    /// The text is not a URL.
    Malformed(url::ParseError),
    /// The URL has no path segments.
    NotABase,
    /// The URL has a fragment.
    HasFragment,
    /// A path segment begins with `<`, as the name of a leaf does.
    ReservedSegment,
}

/// The name that stands for the host of a URL without one.
pub open spec fn host_name(host: Option<Seq<char>>) -> Seq<char> {
    match host {
        Some(h) => h,
        None => seq!['l', 'o', 'c', 'a', 'l'],
    }
}

/// The directory names that a host and a path stand for: the host, then the
/// non-empty segments of the path.
pub open spec fn components_of(host: Option<Seq<char>>, path: Seq<char>) -> Seq<Seq<char>> {
    seq![host_name(host)] + pieces(path, '/')
}

/// Whether some component after the first begins with `<`.
pub open spec fn has_reserved(components: Seq<Seq<char>>) -> bool {
    exists|i: int| 1 <= i < components.len() && (#[trigger] components[i]).len() > 0 && components[i][0] == '<'
}

/// Whether a repository does not take the URL that the parts describe: it
/// cannot be a base, has a fragment, or has a path segment that begins
/// with `<`.
pub open spec fn rejected(parts: PartsView) -> bool {
    parts.cannot_be_a_base || parts.fragment is Some || has_reserved(
        components_of(parts.host, parts.path),
    )
}

/// An absolute URL with path segments and without a fragment.
#[derive(Debug)]
pub struct Url {
    text: String,
    components: Vec<String>,
}

impl Url {
    /// The normalised text of the URL.
    pub closed spec fn view(&self) -> Seq<char> {
        self.text@
    }

    /// The directory names that lead to the node of this URL: the host, then
    /// the non-empty path segments.
    pub closed spec fn components(&self) -> Seq<Seq<char>> {
        texts(self.components@)
    }

    /// There is a host component, and no path segment begins with `<` or
    /// holds a `/`.
    pub open spec fn wf(&self) -> bool {
        &&& self.components().len() >= 1
        &&& !has_reserved(self.components())
        &&& no_slash(self.components().skip(1))
    }

    /// Whether this URL is what `parts` describe.
    pub open spec fn made_of(&self, parts: PartsView) -> bool {
        &&& self@ == parts.text
        &&& self.components() == components_of(parts.host, parts.path)
    }

    /// The URL that the parts describe, where they describe one that a
    /// repository accepts.
    pub fn from_parts(parts: UrlParts) -> (r: Result<Url, UrlError>)
        ensures
            match r {
                Ok(u) => u.wf() && u.made_of(parts@) && !rejected(parts@),
                Err(UrlError::NotABase) => parts.cannot_be_a_base,
                Err(UrlError::HasFragment) => !parts.cannot_be_a_base && parts.fragment is Some,
                Err(UrlError::ReservedSegment) => !parts.cannot_be_a_base && parts.fragment is None
                    && has_reserved(components_of(parts@.host, parts@.path)),
                Err(UrlError::Malformed(_)) => false,
            },
    {
        if parts.cannot_be_a_base {
            return Err(UrlError::NotABase);
        }
        if parts.fragment.is_some() {
            return Err(UrlError::HasFragment);
        }
        let host = match parts.host {
            Some(h) => h,
            None => {
                proof {
                    reveal_strlit("local");
                    assert("local"@ =~= seq!['l', 'o', 'c', 'a', 'l']);
                }
                "local".to_owned()
            },
        };
        let path_chars = chars_of(parts.path.as_str());
        let mut segments = split_pieces(&path_chars, '/');
        let mut components: Vec<String> = Vec::new();
        components.push(host);
        let ghost segs = segments@;
        let mut i: usize = 0;
        let mut reserved = false;
        while i < segments.len()
            invariant
                i <= segments.len(),
                segments@ == segs,
                reserved == exists|j: int| 0 <= j < i && (#[trigger] segs[j])@.len() > 0 && segs[j]@[0] == '<',
            decreases segments.len() - i,
        {
            let seg_chars = chars_of(segments[i].as_str());
            if begins_with(&seg_chars, '<') {
                reserved = true;
            }
            i += 1;
        }
        components.append(&mut segments);
        proof {
            let cs = components_of(parts@.host, parts@.path);
            assert(texts(components@) =~= cs);
            crate::text::lemma_pieces_hold_no_separator(parts@.path, '/');
            assert(cs.skip(1) =~= pieces(parts@.path, '/'));
            if reserved {
                let j = choose|j: int| 0 <= j < segs.len() && (#[trigger] segs[j])@.len() > 0 && segs[j]@[0] == '<';
                assert(cs[j + 1] == segs[j]@);
            }
            if has_reserved(cs) {
                let k = choose|k: int| 1 <= k < cs.len() && (#[trigger] cs[k]).len() > 0 && cs[k][0] == '<';
                assert(cs[k] == segs[k - 1]@);
            }
        }
        if reserved {
            return Err(UrlError::ReservedSegment);
        }
        Ok(Url { text: parts.text, components })
    }

    /// Reads a URL from its text.
    pub fn parse(text: &str) -> (r: Result<Url, UrlError>)
        ensures
            match r {
                Ok(u) => u.wf() && parsed_url(text@) is Some && u.made_of(parsed_url(text@).unwrap())
                    && !rejected(parsed_url(text@).unwrap()),
                Err(UrlError::Malformed(_)) => parsed_url(text@) is None,
                Err(UrlError::NotABase) => parsed_url(text@) is Some && parsed_url(
                    text@,
                ).unwrap().cannot_be_a_base,
                Err(UrlError::HasFragment) => parsed_url(text@) is Some && !parsed_url(
                    text@,
                ).unwrap().cannot_be_a_base && parsed_url(text@).unwrap().fragment is Some,
                Err(UrlError::ReservedSegment) => parsed_url(text@) is Some && !parsed_url(
                    text@,
                ).unwrap().cannot_be_a_base && parsed_url(text@).unwrap().fragment is None
                    && rejected(parsed_url(text@).unwrap()),
            },
    {
        match url_parse(text) {
            Err(e) => Err(UrlError::Malformed(e)),
            Ok(parts) => Url::from_parts(parts),
        }
    }

    /// The normalised text of the URL.
    pub fn as_str(&self) -> (s: &str)
        ensures
            s@ == self@,
    {
        self.text.as_str()
    }
}

impl Url {
    /// The path of the node of this URL below `base`: `base`, then each
    /// component with a `/` before it.
    pub fn to_path(&self, base: &str) -> (path: String)
        ensures
            path@ == base@ + slashed(self.components()),
    {
        let mut path = base.to_owned();
        push_slashed(&mut path, &self.components);
        path
    }

    /// The components, by which a repository finds the node of this URL.
    pub fn node_key(&self) -> (key: Vec<String>)
        ensures
            texts(key@) == self.components(),
    {
        clone_strings(&self.components)
    }

    /// Whether both are the same URL: their texts are equal.
    pub fn same(&self, other: &Url) -> (r: bool)
        ensures
            r == (self@ == other@),
    {
        self.text == other.text
    }

    /// Appends a path segment, as the `url` crate does. Where the result is
    /// no URL that a repository accepts, or does not stand for the node
    /// named `segment` below the node of this URL, the URL stays as it was
    /// and the answer is `false`.
    pub fn push_path_segment(&mut self, segment: &str) -> (done: bool)
        requires
            old(self).wf(),
        ensures
            final(self).wf(),
            done == pushes(old(self)@, old(self).components(), segment@),
            done ==> final(self).made_of(url_with_segment(old(self)@, segment@).unwrap())
                && final(self).components() == old(self).components().push(segment@),
            !done ==> final(self)@ == old(self)@ && final(self).components() == old(
                self,
            ).components(),
    {
        match url_push(self.text.as_str(), segment) {
            None => false,
            Some(parts) => match Url::from_parts(parts) {
                Err(_) => false,
                Ok(next) => {
                    let mut wanted = clone_strings(&self.components);
                    wanted.push(segment.to_owned());
                    assert(texts(wanted@) =~= self.components().push(segment@));
                    if same_texts(&next.components, &wanted) {
                        *self = next;
                        true
                    } else {
                        false
                    }
                },
            },
        }
    }

    /// Removes the last path segment, as the `url` crate does. Where the
    /// result is no URL that a repository accepts, or does not stand for the
    /// node above the node of this URL, the URL stays as it was and the
    /// answer is `false`.
    pub fn pop_path_segment(&mut self) -> (done: bool)
        requires
            old(self).wf(),
        ensures
            final(self).wf(),
            done == pops(old(self)@, old(self).components()),
            done ==> final(self).made_of(url_without_segment(old(self)@).unwrap())
                && final(self).components() == old(self).components().drop_last(),
            !done ==> final(self)@ == old(self)@ && final(self).components() == old(
                self,
            ).components(),
    {
        match url_pop(self.text.as_str()) {
            None => false,
            Some(parts) => match Url::from_parts(parts) {
                Err(_) => false,
                Ok(next) => {
                    let mut wanted = clone_strings(&self.components);
                    let last = wanted.pop();
                    assert(texts(wanted@) =~= self.components().drop_last());
                    if same_texts(&next.components, &wanted) {
                        *self = next;
                        true
                    } else {
                        false
                    }
                },
            },
        }
    }
}

/// Whether appending `segment` to the URL of text `text` and components
/// `components` gives a URL of a repository whose components are those,
/// then `segment`.
pub open spec fn pushes(text: Seq<char>, components: Seq<Seq<char>>, segment: Seq<char>) -> bool {
    match url_with_segment(text, segment) {
        None => false,
        Some(parts) => !rejected(parts) && components_of(parts.host, parts.path)
            == components.push(segment),
    }
}

/// Whether removing the last segment of the URL of text `text` and
/// components `components` gives a URL of a repository whose components are
/// those without the last.
pub open spec fn pops(text: Seq<char>, components: Seq<Seq<char>>) -> bool {
    match url_without_segment(text) {
        None => false,
        Some(parts) => !rejected(parts) && components_of(parts.host, parts.path)
            == components.drop_last(),
    }
}

/// Whether the two hold the same texts in the same order.
pub fn same_texts(a: &Vec<String>, b: &Vec<String>) -> (r: bool)
    ensures
        r == (texts(a@) == texts(b@)),
{
    if a.len() != b.len() {
        assert(texts(a@).len() != texts(b@).len());
        return false;
    }
    let mut i: usize = 0;
    while i < a.len()
        invariant
            i <= a.len(),
            a.len() == b.len(),
            forall|j: int| 0 <= j < i ==> (#[trigger] a@[j])@ == b@[j]@,
        decreases a.len() - i,
    {
        if a[i] != b[i] {
            assert(texts(a@)[i as int] != texts(b@)[i as int]);
            return false;
        }
        i += 1;
    }
    assert(texts(a@) =~= texts(b@));
    true
}

impl Clone for Url {
    fn clone(&self) -> (r: Url)
        ensures
            r@ == self@,
            r.components() == self.components(),
    {
        Url { text: self.text.clone(), components: clone_strings(&self.components) }
    }
}

impl PartialEq for Url {
    fn eq(&self, other: &Url) -> (r: bool) {
        self.text == other.text
    }
}

impl Eq for Url {

}

impl PartialEqSpecImpl for Url {
    open spec fn obeys_eq_spec() -> bool {
        true
    }

    open spec fn eq_spec(&self, other: &Url) -> bool {
        self@ == other@
    }
}

/// URLs are ordered as their texts are.
impl Ordered for Url {
    type Key = Seq<char>;

    open spec fn key(&self) -> Seq<char> {
        self@
    }

    open spec fn before(a: Seq<char>, b: Seq<char>) -> bool {
        text_lt(a, b)
    }

    proof fn lemma_irreflexive(a: Seq<char>) {
        String::lemma_irreflexive(a);
    }

    proof fn lemma_transitive(a: Seq<char>, b: Seq<char>, c: Seq<char>) {
        String::lemma_transitive(a, b, c);
    }

    proof fn lemma_connected(a: Seq<char>, b: Seq<char>) {
        String::lemma_connected(a, b);
    }

    fn precedes(&self, other: &Url) -> (r: bool) {
        self.text.precedes(&other.text)
    }
}

} // verus!
