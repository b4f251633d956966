use update_tracker::filter::{parse_term, DateBound, Filter, FilterError, FilterTerm};
use update_tracker::ordered::{sorted, Ordered};
use update_tracker::repository::Events;
use update_tracker::stamped::Listed;
use update_tracker::time::{Timestamp, TimestampError, MAX_LOCAL_SECS, MIN_LOCAL_SECS};
use update_tracker::update::{UpdateRef, UpdateRefByTimestamp, UpdateRefByUrl, UpdateRefParseError};
use update_tracker::url::{Url, UrlError, UrlParts};

fn reference(url: &str, timestamp: &str) -> UpdateRef {
    UpdateRef::new(Url::parse(url).unwrap(), Timestamp::parse(timestamp).unwrap())
}

#[test]
fn a_timestamp_is_written_and_read_back() {
    let t = Timestamp::new(1_614_591_000, 0, 3600).unwrap();
    assert_eq!(t.to_rfc3339(), "2021-03-01T10:30:00+01:00");
    assert_eq!(Timestamp::parse("2021-03-01T10:30:00+01:00").unwrap(), t);
    assert_eq!((t.secs(), t.nanos(), t.offset()), (1_614_591_000, 0, 3600));

    let fine = Timestamp::new(1_614_591_000, 123_456_789, -5 * 3600).unwrap();
    assert_eq!(fine.to_rfc3339(), "2021-03-01T04:30:00.123456789-05:00");
    assert_eq!(Timestamp::parse(&fine.to_rfc3339()).unwrap(), fine);
    let milli = Timestamp::new(0, 500_000_000, 0).unwrap();
    assert_eq!(milli.to_rfc3339(), "1970-01-01T00:00:00.500+00:00");
    assert_eq!(Timestamp::parse("1970-01-01 00:00:00.5Z").unwrap(), milli);

    let leap = Timestamp::new(1_483_228_799, 1_500_000_000, 0).unwrap();
    assert_eq!(leap.to_rfc3339(), "2016-12-31T23:59:60.500+00:00");
    assert_eq!(Timestamp::parse("2016-12-31T23:59:60.500+00:00").unwrap(), leap);

    for t in [
        Timestamp::new(MIN_LOCAL_SECS + 86_340, 0, -86_340).unwrap(),
        Timestamp::new(MIN_LOCAL_SECS - 86_340, 0, 86_340).unwrap(),
        Timestamp::new(MIN_LOCAL_SECS, 0, 0).unwrap(),
        Timestamp::new(MAX_LOCAL_SECS - 86_340, 999_999_999, 86_340).unwrap(),
        Timestamp::new(MAX_LOCAL_SECS + 86_340, 999_999_999, -86_340).unwrap(),
        Timestamp::new(MAX_LOCAL_SECS, 999_999_999, 0).unwrap(),
        Timestamp::new(MAX_LOCAL_SECS, 1_999_999_999, 0).unwrap(),
        Timestamp::new(-1, 1, 60).unwrap(),
        Timestamp::new(-61, 1_999_999_999, 0).unwrap(),
        Timestamp::new(1_483_228_799, 1_000_000_000, 1800).unwrap(),
        Timestamp::new(1_483_228_799, 1_999_999_999, -3600 * 11 - 60).unwrap(),
        Timestamp::new(951_782_400, 1_000, 0).unwrap(),
        Timestamp::new(951_782_400, 1_000_000, 0).unwrap(),
    ] {
        let read = Timestamp::parse(&t.to_rfc3339()).unwrap();
        assert_eq!((read.secs(), read.nanos(), read.offset()), (t.secs(), t.nanos(), t.offset()));
    }
    assert_eq!(Timestamp::new(MIN_LOCAL_SECS, 0, 0).unwrap().to_rfc3339(), "0000-01-01T00:00:00+00:00");
    assert_eq!(Timestamp::new(MAX_LOCAL_SECS, 0, 0).unwrap().to_rfc3339(), "9999-12-31T23:59:59+00:00");
    assert_eq!(
        Timestamp::new(MAX_LOCAL_SECS + 3600, 0, -3600).unwrap().to_rfc3339(),
        "9999-12-31T23:59:59-01:00"
    );
}

#[test]
fn parts_that_are_no_timestamp_are_refused() {
    assert!(Timestamp::new(MIN_LOCAL_SECS - 1, 0, 0).is_none());
    assert!(Timestamp::new(MAX_LOCAL_SECS + 1, 0, 0).is_none());
    assert!(Timestamp::new(MIN_LOCAL_SECS, 0, -60).is_none());
    assert!(Timestamp::new(MAX_LOCAL_SECS, 0, 60).is_none());
    assert!(Timestamp::new(i64::MAX, 0, 0).is_none());
    assert!(Timestamp::new(i64::MIN, 0, 0).is_none());
    assert!(Timestamp::new(0, 2_000_000_000, 0).is_none());
    assert!(Timestamp::new(0, 1_000_000_000, 0).is_none());
    assert!(Timestamp::new(59, 1_000_000_000, 0).is_some());
    assert!(Timestamp::new(-1, 1_000_000_000, 0).is_some());
    assert!(Timestamp::new(-2, 1_000_000_000, 0).is_none());
    assert!(Timestamp::new(0, 0, 30).is_none());
    assert!(Timestamp::new(0, 0, -30).is_none());
    assert!(Timestamp::new(0, 0, 86_400).is_none());
    assert!(Timestamp::new(0, 0, -86_400).is_none());
    assert!(matches!(Timestamp::parse("yesterday"), Err(TimestampError::Malformed(_))));
    assert!(matches!(Timestamp::parse(""), Err(TimestampError::Malformed(_))));
    assert!(matches!(Timestamp::parse("2021-03-01T10:30:00"), Err(TimestampError::Malformed(_))));
    assert!(matches!(Timestamp::parse("9999-12-31T23:59:59Z"), Ok(_)));
    assert!(matches!(Timestamp::parse("0000-01-01T00:00:00Z"), Ok(_)));
    assert!(matches!(Timestamp::parse("2021-03-01T10:30:00+00:00:30"), Err(_)));
}

#[test]
fn timestamps_are_ordered_by_instant_alone() {
    let early = Timestamp::parse("2021-03-01T10:00:00+01:00").unwrap();
    let late = Timestamp::parse("2021-03-01T09:30:00+00:00").unwrap();
    let same = Timestamp::parse("2021-03-01T09:00:00+00:00").unwrap();
    assert!(early.precedes(&late));
    assert!(!late.precedes(&early));
    assert!(early.same_instant(&same));
    assert!(early == same);
    assert!(early != late);
    assert!(!same.precedes(&early));
    assert!(!early.precedes(&same));
    assert!(!early.precedes(&early));
    assert!(!early.is_earlier(&same) && !same.is_earlier(&early));
    assert!(early.is_earlier(&late));
    let listed = sorted(vec![late, early, early], false);
    assert_eq!(listed, [early, early, late]);
    let listed: Vec<i32> = sorted(vec![Listed(late), Listed(early), Listed(same)], false)
        .iter()
        .map(|t| t.0.offset())
        .collect();
    assert_eq!(listed, [0, 3600, 0]);
    let listed: Vec<i32> = sorted(vec![Listed(same), Listed(late), Listed(early)], true)
        .iter()
        .map(|t| t.0.offset())
        .collect();
    assert_eq!(listed, [0, 3600, 0]);
    let listed: Vec<i64> = sorted(vec![Listed(same), Listed(late), Listed(early)], true)
        .iter()
        .map(|t| t.0.secs())
        .collect();
    assert_eq!(listed, [late.secs(), early.secs(), same.secs()]);
}

#[test]
fn a_url_is_read_with_its_components() {
    let url = Url::parse("HTTP://www.Example.org/test/doc").unwrap();
    assert_eq!(url.as_str(), "http://www.example.org/test/doc");
    assert_eq!(url.node_key(), ["www.example.org", "test", "doc"]);
    assert_eq!(url.to_path("base"), "base/www.example.org/test/doc");
    assert_eq!(Url::parse("http://example.org").unwrap().as_str(), "http://example.org/");
    assert_eq!(Url::parse("http://example.org/").unwrap().node_key(), ["example.org"]);
    assert_eq!(Url::parse("http://example.org/a//b/").unwrap().node_key(), ["example.org", "a", "b"]);
    assert_eq!(Url::parse("http://example.org/a?q=1").unwrap().node_key(), ["example.org", "a"]);
    assert_eq!(Url::parse("file:///etc/hosts").unwrap().node_key(), ["local", "etc", "hosts"]);
    assert_eq!(Url::parse("http://example.org/a b").unwrap().as_str(), "http://example.org/a%20b");
    assert!(Url::parse("http://example.org/a").unwrap() == Url::parse("http://example.org/./a").unwrap());
    assert!(Url::parse("http://example.org/a").unwrap().same(&Url::parse("http://example.org/b/../a").unwrap()));
    assert!(Url::parse("http://example.org/a").unwrap().precedes(&Url::parse("http://example.org/b").unwrap()));
    assert!(Url::parse("http://example.org/a-b").unwrap().precedes(&Url::parse("http://example.org/a/b").unwrap()));
    assert!(!Url::parse("http://example.org/a").unwrap().precedes(&Url::parse("http://example.org/a").unwrap()));
}

#[test]
fn a_text_that_is_no_url_of_a_repository_is_refused() {
    assert!(matches!(Url::parse("not a url"), Err(UrlError::Malformed(_))));
    assert!(matches!(Url::parse(""), Err(UrlError::Malformed(_))));
    assert!(matches!(Url::parse("mailto:someone@example.org"), Err(UrlError::NotABase)));
    assert!(matches!(Url::parse("http://example.org/a#part"), Err(UrlError::HasFragment)));
    assert!(matches!(Url::parse("http://example.org/a#"), Err(UrlError::HasFragment)));
    assert!(matches!(Url::parse("http://example.org/a/<b"), Ok(_)));
    assert!(matches!(Url::parse("file:///a/<update>b"), Ok(_)));
}

#[test]
fn path_segments_are_pushed_and_popped() {
    let mut url = Url::parse("http://www.example.org/").unwrap();
    assert!(url.push_path_segment("test"));
    assert_eq!(url.as_str(), "http://www.example.org/test");
    assert!(url.push_path_segment("doc1"));
    assert_eq!(url.as_str(), "http://www.example.org/test/doc1");
    assert_eq!(url.node_key(), ["www.example.org", "test", "doc1"]);
    assert!(url.pop_path_segment());
    assert_eq!(url.as_str(), "http://www.example.org/test");
    assert!(!url.push_path_segment("a b"));
    assert_eq!(url.as_str(), "http://www.example.org/test");
    assert!(!url.push_path_segment(".."));
    assert!(!url.push_path_segment("a/b"));
    assert!(!url.push_path_segment(""));
    assert_eq!(url.as_str(), "http://www.example.org/test");
    assert!(url.pop_path_segment());
    assert_eq!(url.as_str(), "http://www.example.org/");
    assert!(!url.pop_path_segment());
    assert_eq!(url.as_str(), "http://www.example.org/");
}

#[test]
fn a_reference_is_written_and_read_back() {
    let r = reference("http://example.org/a", "2021-03-01T10:00:00+01:00");
    assert_eq!(r.to_text(), "http://example.org/a#2021-03-01T10:00:00+01:00");
    assert_eq!(UpdateRef::parse(&r.to_text()).unwrap(), r);
    assert_eq!(
        UpdateRef::parse("http://example.org/a?b=c#2021-03-01T09:00:00Z").unwrap().to_text(),
        "http://example.org/a?b=c#2021-03-01T09:00:00+00:00"
    );
    assert!(matches!(
        UpdateRef::parse("http://example.org/a"),
        Err(UpdateRefParseError::FragmentNotProvided(text)) if text == "http://example.org/a"
    ));
    assert!(matches!(
        UpdateRef::parse("http://example.org/a#b#2021-03-01T09:00:00Z"),
        Err(UpdateRefParseError::UrlParseError(UrlError::HasFragment))
    ));
    assert!(matches!(
        UpdateRef::parse("example.org/a#2021-03-01T09:00:00Z"),
        Err(UpdateRefParseError::UrlParseError(UrlError::Malformed(_)))
    ));
    assert!(matches!(
        UpdateRef::parse("http://example.org/a#"),
        Err(UpdateRefParseError::ChronoParseError(TimestampError::Malformed(_)))
    ));
    assert!(matches!(
        UpdateRef::parse("#2021-03-01T09:00:00Z"),
        Err(UpdateRefParseError::UrlParseError(_))
    ));
}

#[test]
fn references_are_sorted_by_url_or_by_timestamp() {
    let a1 = reference("http://example.org/a", "2021-03-01T10:00:00Z");
    let a3 = reference("http://example.org/a", "2021-03-03T10:00:00Z");
    let b2 = reference("http://example.org/b", "2021-03-02T10:00:00Z");
    let by_url = sorted(
        vec![UpdateRefByUrl(b2.clone()), UpdateRefByUrl(a3.clone()), UpdateRefByUrl(a1.clone())],
        false,
    );
    let by_url: Vec<UpdateRef> = by_url.into_iter().map(|r| r.0).collect();
    assert_eq!(by_url, [a1.clone(), a3.clone(), b2.clone()]);
    let by_timestamp = sorted(
        vec![
            UpdateRefByTimestamp(b2.clone()),
            UpdateRefByTimestamp(a3.clone()),
            UpdateRefByTimestamp(a1.clone()),
        ],
        false,
    );
    let by_timestamp: Vec<UpdateRef> = by_timestamp.into_iter().map(|r| r.0).collect();
    assert_eq!(by_timestamp, [a1.clone(), b2.clone(), a3.clone()]);
    assert!(UpdateRefByUrl(a3.clone()).precedes(&UpdateRefByUrl(b2.clone())));
    assert!(UpdateRefByTimestamp(b2.clone()).precedes(&UpdateRefByTimestamp(a3.clone())));
    assert!(!UpdateRefByUrl(a1.clone()).precedes(&UpdateRefByUrl(a1.clone())));
    assert!(!UpdateRefByTimestamp(a1.clone()).precedes(&UpdateRefByTimestamp(a1.clone())));

    let a1_east = reference("http://example.org/a", "2021-03-01T11:00:00+01:00");
    let b1_west = reference("http://example.org/b", "2021-03-01T09:00:00-01:00");
    assert!(a1 == a1_east);
    assert!(!UpdateRefByUrl(a1.clone()).precedes(&UpdateRefByUrl(a1_east.clone())));
    assert!(!UpdateRefByUrl(a1_east.clone()).precedes(&UpdateRefByUrl(a1.clone())));
    assert!(!UpdateRefByTimestamp(a1.clone()).precedes(&UpdateRefByTimestamp(a1_east.clone())));
    assert!(!UpdateRefByTimestamp(a1_east.clone()).precedes(&UpdateRefByTimestamp(a1.clone())));
    assert!(UpdateRefByTimestamp(a1_east.clone()).precedes(&UpdateRefByTimestamp(b1_west.clone())));
    assert!(!UpdateRefByTimestamp(b1_west.clone()).precedes(&UpdateRefByTimestamp(a1_east.clone())));
    assert!(UpdateRefByTimestamp(a1).precedes(&UpdateRefByTimestamp(b1_west)));
}

#[test]
fn events_are_handed_out_in_order() {
    let mut events = Events([None, Some(1), None, Some(2), Some(3)]);
    assert_eq!(events.count(), 3);
    assert_eq!(events.next(), Some(1));
    assert_eq!(events.count(), 2);
    assert_eq!(events.next(), Some(2));
    assert_eq!(events.collect(), [3]);
    let mut none: Events<u8, 2> = Events([None, None]);
    assert_eq!(none.next(), None);
    assert_eq!(none.count(), 0);
    let empty: Events<u8, 0> = Events([]);
    assert_eq!(empty.collect(), []);
}

#[test]
fn filter_terms_are_read() {
    assert!(matches!(parse_term("#news"), Ok(FilterTerm::Tag(tag)) if tag.name() == "news"));
    assert!(matches!(parse_term("#"), Ok(FilterTerm::Tag(tag)) if tag.name().is_empty()));
    assert!(matches!(parse_term("#\"News and communications\""), Ok(FilterTerm::Tag(tag)) if tag.name() == "News and communications"));
    assert!(matches!(parse_term("#\"a\"b\""), Ok(FilterTerm::Tag(tag)) if tag.name() == "a"));
    assert!(matches!(parse_term("#\"open"), Err(FilterError::MissingQuote)));
    assert!(matches!(
        parse_term("https://www.gov.uk/guidance"),
        Ok(FilterTerm::UrlPrefix(url)) if url.as_str() == "https://www.gov.uk/guidance"
    ));
    assert!(matches!(
        parse_term("https://www.gov.uk/guidance#part"),
        Err(FilterError::Url(UrlError::HasFragment))
    ));
    assert!(matches!(
        parse_term("2021-03-01..2021-04"),
        Ok(FilterTerm::DateRange(
            Some(DateBound { year: 2021, month: Some(3), day: Some(1), first_second: 1_614_556_800 }),
            Some(DateBound { year: 2021, month: Some(4), day: None, first_second: 1_617_235_200 })
        ))
    ));
    assert!(matches!(parse_term(".."), Ok(FilterTerm::DateRange(None, None))));
    assert!(matches!(
        parse_term("2020.."),
        Ok(FilterTerm::DateRange(
            Some(DateBound { year: 2020, month: None, day: None, first_second: 1_577_836_800 }),
            None
        ))
    ));
    assert!(matches!(
        parse_term("..+2020-12-31-23"),
        Ok(FilterTerm::DateRange(
            None,
            Some(DateBound { year: 2020, month: Some(12), day: Some(31), first_second: 1_609_372_800 })
        ))
    ));
    assert!(matches!(parse_term("...2020"), Err(FilterError::Date)));
    assert!(matches!(parse_term("2021-..2022"), Err(FilterError::Date)));
    assert!(matches!(parse_term("-2021.."), Err(FilterError::Date)));
    assert!(matches!(parse_term("2147483648.."), Err(FilterError::Date)));
    assert!(matches!(parse_term("2021-4294967296.."), Err(FilterError::Date)));
    assert!(matches!(parse_term("2021-03-x.."), Err(FilterError::Date)));
    assert!(matches!(parse_term("2021-02-30.."), Err(FilterError::Date)));
    assert!(matches!(parse_term("2021-13.."), Err(FilterError::Date)));
    assert!(matches!(parse_term("2021-00-01.."), Err(FilterError::Date)));
    assert!(matches!(parse_term("2020-02-29.."), Ok(_)));
    assert!(matches!(parse_term("news"), Err(FilterError::Unrecognised)));
    assert!(matches!(parse_term(""), Err(FilterError::Unrecognised)));
    assert!(matches!(parse_term("http://www.gov.uk/"), Err(FilterError::Unrecognised)));

    let mut filter = Filter::new();
    let update = reference("https://www.gov.uk/guidance/a", "2021-03-01T10:00:00Z");
    assert!(filter.admits(&update));
    filter.add(parse_term("#one").unwrap());
    filter.add(parse_term("https://www.gov.uk/news").unwrap());
    filter.add(parse_term("#two").unwrap());
    filter.add(parse_term("2020..2021").unwrap());
    assert!(!filter.admits(&update));
    filter.add(parse_term("https://www.gov.uk/guidance").unwrap());
    assert!(!filter.admits(&update));
    filter.add(parse_term("2021..").unwrap());
    assert!(filter.admits(&update));
    assert_eq!(filter.tags.iter().map(|tag| tag.name()).collect::<Vec<_>>(), ["one", "two"]);
    filter.add(parse_term("2021-03-01..2021-03-02").unwrap());
    assert!(filter.admits(&update));
    assert!(filter.admits(&reference("https://www.gov.uk/guidance/a", "2021-03-01T00:00:00+05:00")));
    assert!(filter.admits(&reference("https://www.gov.uk/guidance/a", "2021-03-01T23:00:00-02:00")));
    assert!(!filter.admits(&reference("https://www.gov.uk/guidance/a", "2021-02-28T23:59:59+00:00")));
    assert!(filter.admits(&reference("https://www.gov.uk/guidance/a", "2021-03-01T01:00:00+02:00")));
    assert!(filter.admits(&reference("https://www.gov.uk/guidance/a", "2021-03-01T23:59:59.999-02:00")));
    assert!(!filter.admits(&reference("https://www.gov.uk/guidance/a", "2021-03-02T00:00:00-02:00")));
    filter.add(parse_term("..2021-03-01").unwrap());
    assert!(!filter.admits(&update));
}

#[test]
fn parts_that_describe_no_url_of_a_repository_are_refused() {
    let parts = |path: &str, fragment: Option<&str>, cannot_be_a_base: bool| UrlParts {
        text: format!("http://example.org{}", path),
        host: Some("example.org".to_string()),
        path: path.to_string(),
        fragment: fragment.map(str::to_string),
        cannot_be_a_base,
    };
    assert!(matches!(Url::from_parts(parts("/a/<b", None, false)), Err(UrlError::ReservedSegment)));
    assert!(matches!(Url::from_parts(parts("/<update>a", None, false)), Err(UrlError::ReservedSegment)));
    assert!(matches!(Url::from_parts(parts("/a<b", None, false)), Ok(url) if url.node_key() == ["example.org", "a<b"]));
    assert!(matches!(Url::from_parts(parts("/a", Some("f"), false)), Err(UrlError::HasFragment)));
    assert!(matches!(Url::from_parts(parts("/a", Some("f"), true)), Err(UrlError::NotABase)));
    assert!(matches!(Url::from_parts(parts("/a", None, true)), Err(UrlError::NotABase)));
}
