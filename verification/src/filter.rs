//! Filters: the terms by which a listing of updates is narrowed down.

use vstd::prelude::*;
use crate::route::{integer_of, read_integer};
use crate::tag::Tag;
use crate::time::{chrono_midnight, midnight_of};
use crate::text::{chars_of, find_char, holds_text_at, parts, slice_string, split_parts, texts};
use crate::update::{url_accepted, UpdateRef};
use crate::url::{parsed_url, Url, UrlError};

verus! {

/// A day, a month or a year, as one end of a range of dates, with the
/// seconds from the epoch to its first second.
#[derive(Clone, Copy, Debug, PartialEq, Eq, Structural)]
pub struct DateBound {
    pub year: i32,
    pub month: Option<u32>,
    pub day: Option<u32>,
    pub first_second: i64,
}

/// One term of a filter.
#[derive(Debug)]
pub enum FilterTerm {
    /// Only updates that carry this tag.
    Tag(Tag),
    /// Only updates of URLs that begin like this one.
    UrlPrefix(Url),
    /// Only updates from the first date on and before the second.
    DateRange(Option<DateBound>, Option<DateBound>),
}

/// Why a text is no term of a filter.
#[derive(Debug)]
pub enum FilterError {
    /// A tag begins with a double quote that nothing closes.
    MissingQuote,
    /// What looks like a URL is none.
    Url(UrlError),
    /// An end of a range of dates is not numbers with `-` between them.
    Date,
    /// The text is no tag, no URL and no range of dates.
    Unrecognised,
}

/// What a text says as a filter term, before a URL is looked into.
pub ghost enum TermView {
    Tag(Seq<char>),
    UrlPrefix,
    DateRange(Option<DateBound>, Option<DateBound>),
    MissingQuote,
    Date,
    Unrecognised,
}

/// The number that stands at position `i` of `parts`, if it is one from 0
/// to `max`.
pub open spec fn number_at(parts: Seq<Seq<char>>, i: int, max: int) -> Option<int> {
    match integer_of(parts[i], false) {
        Some(n) => if 0 <= n <= max {
            Some(n)
        } else {
            None
        },
        None => None,
    }
}

/// The bound of this year, month and day, where the calendar knows the
/// first day of it: that of the year, or of the month, or the day itself.
pub open spec fn bound_of(year: int, month: Option<int>, day: Option<int>) -> Option<DateBound> {
    let m = match month {
        Some(m) => m,
        None => 1,
    };
    let d = match day {
        Some(d) => d,
        None => 1,
    };
    match midnight_of(year, m, d) {
        Some(first) => Some(
            DateBound {
                year: year as i32,
                month: match month {
                    Some(m) => Some(m as u32),
                    None => None,
                },
                day: match day {
                    Some(d) => Some(d as u32),
                    None => None,
                },
                first_second: first as i64,
            },
        ),
        None => None,
    }
}

/// What `s` says as an end of a range of dates: nothing where it is empty,
/// else a year, or a year and a month, or a year, a month and a day, with
/// `-` between them; what follows the day counts for nothing. The outer
/// `None` is for a text that says none of these, or names a day that the
/// calendar does not know.
pub open spec fn date_bound_of(s: Seq<char>) -> Option<Option<DateBound>> {
    let p = parts(s, '-');
    let year = number_at(p, 0, i32::MAX as int);
    if s.len() == 0 {
        Some(None)
    } else if year is None {
        None
    } else if p.len() == 1 {
        match bound_of(year->0, None, None) {
            Some(b) => Some(Some(b)),
            None => None,
        }
    } else if number_at(p, 1, u32::MAX as int) is None {
        None
    } else if p.len() == 2 {
        match bound_of(year->0, number_at(p, 1, u32::MAX as int), None) {
            Some(b) => Some(Some(b)),
            None => None,
        }
    } else if number_at(p, 2, u32::MAX as int) is None {
        None
    } else {
        match bound_of(
            year->0,
            number_at(p, 1, u32::MAX as int),
            number_at(p, 2, u32::MAX as int),
        ) {
            Some(b) => Some(Some(b)),
            None => None,
        }
    }
}

/// Whether `s` holds two dots next to each other at position `i`.
pub open spec fn dots_at(s: Seq<char>, i: int) -> bool {
    0 <= i && i + 1 < s.len() && s[i] == '.' && s[i + 1] == '.'
}

/// Whether `i` is the first position at which `s` holds two dots.
pub open spec fn first_dots(s: Seq<char>, i: int) -> bool {
    dots_at(s, i) && forall|j: int| 0 <= j < i ==> !dots_at(s, j)
}

/// What `token` says as a filter term. A token that begins with `#"` is
/// the tag between that and the next double quote; any other token that
/// begins with `#` is the tag that follows the `#`. Else a token that
/// begins like the site's address is a URL. Else a token with two dots in
/// it is a range of dates, from what stands before the first two dots to
/// what follows them.
pub open spec fn term_of(token: Seq<char>) -> TermView {
    if token.len() >= 2 && token[0] == '#' && token[1] == '"' {
        let rest = token.skip(2);
        if rest.contains('"') {
            TermView::Tag(rest.take(rest.index_of_first('"').unwrap()))
        } else {
            TermView::MissingQuote
        }
    } else if token.len() >= 1 && token[0] == '#' {
        TermView::Tag(token.skip(1))
    } else if "https://www.gov.uk/"@.is_prefix_of(token) {
        TermView::UrlPrefix
    } else if exists|i: int| first_dots(token, i) {
        let i = choose|i: int| first_dots(token, i);
        match (date_bound_of(token.take(i)), date_bound_of(token.skip(i + 2))) {
            (Some(from), Some(to)) => TermView::DateRange(from, to),
            _ => TermView::Date,
        }
    } else {
        TermView::Unrecognised
    }
}

/// The bound of this year, month and day, where the calendar knows it.
pub fn make_bound(year: i32, month: Option<u32>, day: Option<u32>) -> (r: Option<DateBound>)
    ensures
        r == bound_of(
            year as int,
            match month {
                Some(m) => Some(m as int),
                None => None,
            },
            match day {
                Some(d) => Some(d as int),
                None => None,
            },
        ),
{
    let m: u32 = match month {
        Some(m) => m,
        None => 1,
    };
    let d: u32 = match day {
        Some(d) => d,
        None => 1,
    };
    match chrono_midnight(year, m, d) {
        Some(first_second) => Some(DateBound { year, month, day, first_second }),
        None => None,
    }
}

/// Reads one end of a range of dates.
pub fn parse_date_bound(s: &Vec<char>) -> (r: Result<Option<DateBound>, FilterError>)
    ensures
        match r {
            Ok(bound) => date_bound_of(s@) == Some(bound),
            Err(FilterError::Date) => date_bound_of(s@) is None,
            Err(_) => false,
        },
{
    if s.len() == 0 {
        return Ok(None);
    }
    let p = split_parts(s, '-');
    proof {
        assert(texts(p@)[0] == p@[0]@);
    }
    let year = match read_integer(&chars_of(p[0].as_str()), false, 0, 0x7fff_ffff) {
        Some(n) => n as i32,
        None => {
            return Err(FilterError::Date);
        },
    };
    let mut month: Option<u32> = None;
    let mut day: Option<u32> = None;
    if p.len() > 1 {
        proof {
            assert(texts(p@)[1] == p@[1]@);
        }
        match read_integer(&chars_of(p[1].as_str()), false, 0, 0xffff_ffff) {
            Some(n) => {
                month = Some(n as u32);
            },
            None => {
                return Err(FilterError::Date);
            },
        }
    }
    if p.len() > 2 {
        proof {
            assert(texts(p@)[2] == p@[2]@);
        }
        match read_integer(&chars_of(p[2].as_str()), false, 0, 0xffff_ffff) {
            Some(n) => {
                day = Some(n as u32);
            },
            None => {
                return Err(FilterError::Date);
            },
        }
    }
    match make_bound(year, month, day) {
        Some(bound) => Ok(Some(bound)),
        None => Err(FilterError::Date),
    }
}

/// The first position at which `s` holds two dots, if it holds them.
pub fn find_dots(s: &Vec<char>) -> (r: Option<usize>)
    ensures
        match r {
            Some(i) => first_dots(s@, i as int),
            None => forall|j: int| !dots_at(s@, j),
        },
{
    if s.len() < 2 {
        return None;
    }
    let mut i: usize = 0;
    while i < s.len() - 1
        invariant
            s.len() >= 2,
            forall|j: int| 0 <= j < i ==> !dots_at(s@, j),
        decreases s.len() - i,
    {
        if s[i] == '.' && s[i + 1] == '.' {
            return Some(i);
        }
        i += 1;
    }
    None
}

/// Reads a filter term.
pub fn parse_term(token: &str) -> (r: Result<FilterTerm, FilterError>)
    ensures
        match term_of(token@) {
            TermView::Tag(name) => r matches Ok(FilterTerm::Tag(tag)) && tag@ == name,
            TermView::UrlPrefix => match r {
                Ok(FilterTerm::UrlPrefix(url)) => url.wf() && url_accepted(token@) && url.made_of(
                    parsed_url(token@).unwrap(),
                ),
                Err(FilterError::Url(_)) => !url_accepted(token@),
                _ => false,
            },
            TermView::DateRange(from, to) => r matches Ok(FilterTerm::DateRange(a, b)) && a == from
                && b == to,
            TermView::MissingQuote => r matches Err(FilterError::MissingQuote),
            TermView::Date => r matches Err(FilterError::Date),
            TermView::Unrecognised => r matches Err(FilterError::Unrecognised),
        },
{
    let chars = chars_of(token);
    if chars.len() >= 2 && chars[0] == '#' && chars[1] == '"' {
        let mut rest: Vec<char> = Vec::new();
        let mut i: usize = 2;
        while i < chars.len()
            invariant
                2 <= i <= chars.len(),
                rest@ == chars@.subrange(2, i as int),
            decreases chars.len() - i,
        {
            rest.push(chars[i]);
            assert(chars@.subrange(2, i + 1) =~= chars@.subrange(2, i as int).push(chars@[i as int]));
            i += 1;
        }
        assert(rest@ =~= token@.skip(2));
        return match find_char(&rest, '"') {
            None => Err(FilterError::MissingQuote),
            Some(end) => {
                proof {
                    rest@.index_of_first_ensures('"');
                    let k = rest@.index_of_first('"').unwrap();
                    if k < end {
                        assert(rest@.take(end as int)[k] == '"');
                    }
                    assert(rest@.subrange(0, end as int) =~= rest@.take(end as int));
                }
                Ok(FilterTerm::Tag(Tag::new(slice_string(&rest, 0, end))))
            },
        };
    }
    if chars.len() >= 1 && chars[0] == '#' {
        assert(chars@.subrange(1, chars.len() as int) =~= token@.skip(1));
        return Ok(FilterTerm::Tag(Tag::new(slice_string(&chars, 1, chars.len()))));
    }
    assert(chars@.skip(0) =~= chars@);
    if holds_text_at(&chars, 0, "https://www.gov.uk/") {
        return match Url::parse(token) {
            Ok(url) => Ok(FilterTerm::UrlPrefix(url)),
            Err(e) => Err(FilterError::Url(e)),
        };
    }
    match find_dots(&chars) {
        None => Err(FilterError::Unrecognised),
        Some(at) => {
            proof {
                let i = choose|i: int| first_dots(token@, i);
                assert(first_dots(token@, at as int));
                assert(i == at);
            }
            let mut from: Vec<char> = Vec::new();
            let mut i: usize = 0;
            while i < at
                invariant
                    i <= at < chars.len(),
                    from@ == chars@.take(i as int),
                decreases at - i,
            {
                from.push(chars[i]);
                assert(chars@.take(i + 1) =~= chars@.take(i as int).push(chars@[i as int]));
                i += 1;
            }
            let mut to: Vec<char> = Vec::new();
            let mut i: usize = at + 2;
            assert(chars@.subrange(at + 2, at + 2) =~= Seq::<char>::empty());
            while i < chars.len()
                invariant
                    at + 2 <= i <= chars.len(),
                    to@ == chars@.subrange(at + 2, i as int),
                decreases chars.len() - i,
            {
                to.push(chars[i]);
                assert(chars@.subrange(at + 2, i + 1) =~= chars@.subrange(at + 2, i as int).push(
                    chars@[i as int],
                ));
                i += 1;
            }
            assert(to@ =~= token@.skip(at + 2));
            match parse_date_bound(&from) {
                Err(e) => Err(e),
                Ok(from) => match parse_date_bound(&to) {
                    Err(e) => Err(e),
                    Ok(to) => Ok(FilterTerm::DateRange(from, to)),
                },
            }
        },
    }
}

/// What narrows a listing of updates down.
#[derive(Debug)]
pub struct Filter {
    /// Only updates that carry all of these tags.
    pub tags: Vec<Tag>,
    /// Only updates of URLs that begin like this one.
    pub url_prefix: Option<Url>,
    /// Only updates from the first date on and before the second.
    pub date_range: (Option<DateBound>, Option<DateBound>),
}

impl Filter {
    /// The filter that lets every update through.
    pub fn new() -> (filter: Filter)
        ensures
            filter.tags@.len() == 0,
            filter.url_prefix is None,
            filter.date_range == (None::<DateBound>, None::<DateBound>),
    {
        Filter { tags: Vec::new(), url_prefix: None, date_range: (None, None) }
    }

    /// Narrows the filter down by one more term: a tag is one more tag
    /// that an update must carry; a URL or a range of dates takes the place
    /// of the one before.
    pub fn add(&mut self, term: FilterTerm)
        ensures
            match term {
                FilterTerm::Tag(tag) => final(self).tags@ == old(self).tags@.push(tag) && final(self).url_prefix == old(self).url_prefix && final(self).date_range == old(self).date_range,
                FilterTerm::UrlPrefix(url) => final(self).tags == old(self).tags && final(self).url_prefix == Some(url) && final(self).date_range == old(self).date_range,
                FilterTerm::DateRange(from, to) => final(self).tags == old(self).tags && final(self).url_prefix == old(self).url_prefix && final(self).date_range == (from, to),
            },
    {
        match term {
            FilterTerm::Tag(tag) => {
                self.tags.push(tag);
            },
            FilterTerm::UrlPrefix(url) => {
                self.url_prefix = Some(url);
            },
            FilterTerm::DateRange(from, to) => {
                self.date_range = (from, to);
            },
        }
    }

    /// Whether the filter lets the update through by its URL and time: the
    /// text of the reference begins like the URL of the filter, if it has
    /// one, and the second that the timestamp names under its offset is not
    /// before the first date and is before the second, where the filter
    /// has them.
    pub fn admits(&self, update_ref: &UpdateRef) -> (r: bool)
        requires
            update_ref.wf(),
        ensures
            r == (match self.url_prefix {
                Some(url) => url@.is_prefix_of(update_ref.text()),
                None => true,
            } && match self.date_range.0 {
                Some(from) => from.first_second <= update_ref.timestamp.parts().0
                    + update_ref.timestamp.parts().2,
                None => true,
            } && match self.date_range.1 {
                Some(to) => update_ref.timestamp.parts().0 + update_ref.timestamp.parts().2
                    < to.first_second,
                None => true,
            }),
    {
        let by_url = match &self.url_prefix {
            None => true,
            Some(url) => {
                let text = chars_of(update_ref.to_text().as_str());
                assert(text@.skip(0) =~= text@);
                holds_text_at(&text, 0, url.as_str())
            },
        };
        let local = update_ref.timestamp.local_secs();
        let from = match self.date_range.0 {
            Some(from) => from.first_second <= local,
            None => true,
        };
        let to = match self.date_range.1 {
            Some(to) => local < to.first_second,
            None => true,
        };
        by_url && from && to
    }
}

} // verus!
