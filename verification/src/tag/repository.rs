//! The repository of tags: for each tag a text with one line for each
//! update that was given the tag.

use vstd::prelude::*;
use vstd::string::StringExecFns;
use crate::error::RepoError;
use crate::ordered::{text_lt, Ordered};
use crate::repository::{Entity, WithEvents};
use crate::sorted_map::SortedMap;
use crate::tag::{tag_event_views, Tag, TagEvent, TagEventView};
use crate::text::{chars_of, lines, split_lines, texts};
use crate::update::{UpdateRef, UpdateRefParseError};

verus! {

pub struct TagRepo {
    base: String,
    tags: SortedMap<String, String>,
}

/// The line that stands for an update in the text of a tag.
pub open spec fn tag_line(update_ref: UpdateRef) -> Seq<char> {
    update_ref.text() + seq!['\n']
}

/// The events of tagging `update_ref` with `tag`: the update was tagged,
/// and the tag was created if it had no text.
pub open spec fn tag_events(tag: Seq<char>, update_ref: UpdateRef, created: bool) -> Seq<
    TagEventView,
> {
    let tagged = TagEventView::UpdateTagged {
        tag,
        url: update_ref.url@,
        path: update_ref.url.components(),
        timestamp: update_ref.timestamp,
    };
    if created {
        seq![tagged, TagEventView::TagCreated { tag }]
    } else {
        seq![tagged]
    }
}

impl TagRepo {
    pub closed spec fn base_path(&self) -> Seq<char> {
        self.base@
    }

    /// No two tags share a name.
    pub closed spec fn wf(&self) -> bool {
        self.tags.wf()
    }

    /// The text of the tag `name`, if the tag was ever used.
    pub closed spec fn file(&self, name: Seq<char>) -> Option<Seq<char>> {
        match self.tags.lookup(name) {
            Some(text) => Some(text@),
            None => None,
        }
    }

    /// The names of the tags in order, each once.
    pub closed spec fn names(&self) -> Seq<Seq<char>> {
        Seq::new(self.tags.entries().len(), |i: int| self.tags.entries()[i].key@)
    }

    /// An empty repository below `base`.
    pub fn new(base: &str) -> (r: Result<TagRepo, RepoError>)
        ensures
            r is Ok,
            r->Ok_0.wf(),
            r->Ok_0.base_path() == base@,
            forall|n: Seq<char>| r->Ok_0.file(n) is None,
    {
        let repo = TagRepo { base: base.to_owned(), tags: SortedMap::new() };
        proof {
            assert forall|n: Seq<char>| repo.file(n) is None by {
                assert(!repo.tags@.contains_key(n));
            }
        }
        Ok(repo)
    }

    /// Takes `text` as the text of the tag `name`, in place of the text it
    /// had, if it had one. No other text changes.
    pub fn load(&mut self, name: String, text: String)
        requires
            old(self).wf(),
        ensures
            final(self).wf(),
            final(self).base_path() == old(self).base_path(),
            final(self).file(name@) == Some(text@),
            forall|n: Seq<char>| n != name@ ==> final(self).file(n) == old(self).file(n),
    {
        let ghost before = self.tags@;
        let ghost key = name@;
        self.tags.insert(name, text);
        proof {
            assert forall|n: Seq<char>| n != key implies self.file(n) == old(self).file(n) by {
                assert(self.tags@.contains_key(n) == before.contains_key(n));
                if before.contains_key(n) {
                    assert(self.tags@[n] == before[n]);
                }
            }
            assert(self.tags@.contains_key(key));
            assert(self.tags@[key] == text);
        }
    }

    /// The path of the text of `tag`: the base, a `/`, and the name.
    pub fn path_for(&self, tag: &str) -> (path: String)
        ensures
            path@ == self.base_path() + seq!['/'] + tag@,
    {
        let mut path = self.base.clone();
        path.push('/');
        path.append(tag);
        path
    }

    /// Gives the tag `tag_name` to an update: adds one line for the update
    /// at the end of the text of the tag. No other text changes, and
    /// nothing of the text as it was.
    pub fn tag_update(&mut self, tag_name: String, update_ref: UpdateRef) -> (r: Result<
        WithEvents<Tag, 2>,
        RepoError,
    >)
        requires
            old(self).wf(),
            update_ref.wf(),
            tag_name@.len() > 0,
        ensures
            final(self).wf(),
            final(self).base_path() == old(self).base_path(),
            r is Ok,
            r->Ok_0.entity@ == tag_name@,
            tag_event_views(r->Ok_0.events@) == tag_events(
                tag_name@,
                update_ref,
                old(self).file(tag_name@) is None,
            ),
            final(self).file(tag_name@) == Some(
                match old(self).file(tag_name@) {
                    Some(text) => text,
                    None => Seq::<char>::empty(),
                } + tag_line(update_ref),
            ),
            forall|n: Seq<char>| n != tag_name@ ==> final(self).file(n) == old(self).file(n),
    {
        let tag = Tag::new(tag_name.clone());
        let ghost before = self.tags@;
        let held = self.tags.remove(&tag_name);
        let is_new_tag = held.is_none();
        let mut text = match held {
            Some(text) => text,
            None => String::new(),
        };
        let ghost start = text@;
        text.append(update_ref.to_text().as_str());
        text.push('\n');
        proof {
            assert(text@ =~= start + tag_line(update_ref));
        }
        self.tags.insert(tag_name, text);
        proof {
            assert(self.tags@ =~= before.insert(tag@, text));
            assert forall|n: Seq<char>| n != tag@ implies self.file(n) == old(self).file(n) by {
                assert(self.tags@.contains_key(n) == before.contains_key(n));
                if before.contains_key(n) {
                    assert(self.tags@[n] == before[n]);
                }
            }
            assert(self.tags@.contains_key(tag@));
            assert(self.tags@[tag@] == text);
            assert(old(self).tags@.contains_key(tag@) == old(self).file(tag@) is Some);
        }
        let tagged = TagEvent::update_tagged(tag.clone(), &update_ref);
        if is_new_tag {
            let created = TagEvent::tag_created(tag.clone());
            proof {
                crate::doc::repository::lemma_present_two(tagged, created);
            }
            let r = tag.with_events([Some(tagged), Some(created)]);
            proof {
                assert(r->Ok_0.events.0@ =~= seq![Some(tagged), Some(created)]);
                assert(tag_event_views(r->Ok_0.events@) =~= tag_events(tag@, update_ref, true));
            }
            r
        } else {
            proof {
                crate::doc::repository::lemma_present_two(tagged, tagged);
            }
            let r = tag.with_events([Some(tagged), None]);
            proof {
                assert(r->Ok_0.events.0@ =~= seq![Some(tagged), None::<TagEvent>]);
                assert(tag_event_views(r->Ok_0.events@) =~= tag_events(tag@, update_ref, false));
            }
            r
        }
    }

    /// All tags that have a text, each once, in the order of their names.
    pub fn list_tags(&self) -> (r: Result<Vec<Tag>, RepoError>)
        requires
            self.wf(),
        ensures
            r is Ok,
            r->Ok_0@.len() == self.names().len(),
            forall|i: int| 0 <= i < self.names().len() ==> (#[trigger] r->Ok_0@[i])@ == self.names()[i],
            forall|i: int| 0 <= i < r->Ok_0@.len() ==> self.file((#[trigger] r->Ok_0@[i])@) is Some,
            forall|n: Seq<char>|
                self.file(n) is Some ==> exists|i: int|
                    0 <= i < r->Ok_0@.len() && (#[trigger] r->Ok_0@[i])@ == n,
            forall|i: int, j: int|
                0 <= i < j < r->Ok_0@.len() ==> text_lt(
                    (#[trigger] r->Ok_0@[i])@,
                    (#[trigger] r->Ok_0@[j])@,
                ),
    {
        proof {
            self.lemma_names();
        }
        let mut out: Vec<Tag> = Vec::new();
        let mut i: usize = 0;
        while i < self.tags.len()
            invariant
                i <= self.tags.spec_len(),
                out.len() == i,
                forall|k: int| 0 <= k < i ==> (#[trigger] out@[k])@ == self.names()[k],
            decreases self.tags.spec_len() - i,
        {
            out.push(Tag::new(self.tags.entry(i).key.clone()));
            i += 1;
        }
        proof {
            assert forall|i: int| 0 <= i < out@.len() implies self.file((#[trigger] out@[i])@)
                is Some by {
                assert(self.names().contains(self.names()[i]));
            }
            assert forall|n: Seq<char>| self.file(n) is Some implies exists|i: int|
                0 <= i < out@.len() && (#[trigger] out@[i])@ == n by {
                assert(self.names().contains(n));
                let i = choose|i: int| 0 <= i < self.names().len() && self.names()[i] == n;
                assert(out@[i]@ == n);
            }
        }
        Ok(out)
    }

    /// Where the text of a tag ends its last line, and the reference holds
    /// no line break and does not end with a carriage return, tagging adds
    /// the reference as one more line after the lines that were there.
    pub proof fn lemma_tagging_adds_a_line(text: Seq<char>, update_ref: UpdateRef)
        requires
            !update_ref.text().contains('\n'),
            update_ref.text().last() != '\r',
            text.len() == 0 || text.last() == '\n',
        ensures
            lines(text + tag_line(update_ref)) == lines(text).push(update_ref.text()),
    {
        crate::text::lemma_lines_after_append(text, update_ref.text());
        assert(text + tag_line(update_ref) =~= text + update_ref.text() + seq!['\n']);
    }

    /// The names of the tags strictly increase, and are those of the tags
    /// that have a text.
    pub proof fn lemma_names(&self)
        requires
            self.wf(),
        ensures
            forall|i: int, j: int|
                0 <= i < j < self.names().len() ==> text_lt(
                    #[trigger] self.names()[i],
                    #[trigger] self.names()[j],
                ),
            forall|n: Seq<char>| self.file(n) is Some <==> self.names().contains(n),
    {
        self.tags.lemma_view();
        let es = self.tags.entries();
        assert forall|i: int, j: int| 0 <= i < j < self.names().len() implies text_lt(
            #[trigger] self.names()[i],
            #[trigger] self.names()[j],
        ) by {
            assert(String::before(es[i].key.key(), es[j].key.key()));
        }
        assert forall|n: Seq<char>| self.file(n) is Some <==> self.names().contains(n) by {
            if self.file(n) is Some {
                assert(self.tags@.contains_key(n));
                let i = crate::sorted_map::position(es, n).unwrap();
                assert(self.names()[i] == n);
            }
            if self.names().contains(n) {
                let i = choose|i: int| 0 <= i < self.names().len() && self.names()[i] == n;
                assert(self.tags@.contains_key(es[i].key.key()));
            }
        }
    }

    /// What the lines of the text of `tag` are read as, line for line. A
    /// line that is not read as a reference gives an error in its place
    /// and does not end the list.
    pub fn list_updates_in_tag(&self, tag: &str) -> (r: Result<
        Vec<Result<UpdateRef, UpdateRefParseError>>,
        RepoError,
    >)
        requires
            self.wf(),
        ensures
            match r {
                Ok(v) => self.file(tag@) is Some && v@.len() == lines(self.file(tag@).unwrap()).len()
                    && forall|i: int|
                    0 <= i < v@.len() ==> UpdateRef::reads_as(
                        lines(self.file(tag@).unwrap())[i],
                        #[trigger] v@[i],
                    ),
                Err(e) => e == RepoError::NotFound && self.file(tag@) is None,
            },
    {
        let name = tag.to_owned();
        match self.tags.get(&name) {
            None => Err(RepoError::NotFound),
            Some(text) => {
                let chars = chars_of(text.as_str());
                let all = split_lines(&chars);
                let mut out: Vec<Result<UpdateRef, UpdateRefParseError>> = Vec::new();
                let mut i: usize = 0;
                while i < all.len()
                    invariant
                        i <= all.len(),
                        out.len() == i,
                        forall|k: int|
                            0 <= k < i ==> UpdateRef::reads_as(all@[k]@, #[trigger] out@[k]),
                    decreases all.len() - i,
                {
                    out.push(UpdateRef::parse(all[i].as_str()));
                    i += 1;
                }
                proof {
                    assert forall|k: int| 0 <= k < out@.len() implies UpdateRef::reads_as(
                        lines(self.file(tag@).unwrap())[k],
                        #[trigger] out@[k],
                    ) by {
                        assert(texts(all@)[k] == all@[k]@);
                    }
                }
                Ok(out)
            },
        }
    }
}

} // verus!
