use update_tracker::error::RepoError;
use update_tracker::tag::{Tag, TagEvent, TagRepo};
use update_tracker::time::Timestamp;
use update_tracker::update::{UpdateRef, UpdateRefParseError};
use update_tracker::url::Url;

fn reference(url: &str, timestamp: &str) -> UpdateRef {
    UpdateRef::new(Url::parse(url).unwrap(), Timestamp::parse(timestamp).unwrap())
}

#[test]
fn tag_appends_and_iteration() {
    let mut repo = TagRepo::new("tmp/tags").unwrap();
    let r1 = reference("http://example.org/a", "2021-03-01T10:00:00+00:00");
    let r2 = reference("http://example.org/b", "2021-03-01T11:00:00+01:00");

    let first = repo.tag_update("cat".to_string(), r1.clone()).unwrap();
    assert_eq!(first.name(), "cat");
    assert_eq!(
        first.into_events().collect(),
        [
            TagEvent::UpdateTagged { tag: Tag::new("cat".to_string()), update_ref: r1.clone() },
            TagEvent::TagCreated { tag: Tag::new("cat".to_string()) }
        ]
    );
    let second = repo.tag_update("cat".to_string(), r2.clone()).unwrap();
    assert_eq!(
        second.into_events().collect(),
        [TagEvent::UpdateTagged { tag: Tag::new("cat".to_string()), update_ref: r2.clone() }]
    );
    let third = repo.tag_update("cat".to_string(), r1.clone()).unwrap();
    assert_eq!(third.into_events().count(), 1);

    let listed: Vec<UpdateRef> = repo
        .list_updates_in_tag("cat")
        .unwrap()
        .into_iter()
        .map(|line| line.unwrap())
        .collect();
    assert_eq!(listed, [r1.clone(), r2.clone(), r1.clone()]);
    assert_eq!(repo.list_tags().unwrap(), [Tag::new("cat".to_string())]);
}

#[test]
fn tags_are_listed_by_name() {
    let mut repo = TagRepo::new("tmp/tags").unwrap();
    let r = reference("http://example.org/a", "2021-03-01T10:00:00Z");
    for name in ["news", "Guidance", "alerts", "news", "a"] {
        repo.tag_update(name.to_string(), r.clone()).unwrap();
    }
    let names: Vec<String> = repo.list_tags().unwrap().iter().map(|tag| tag.name().to_string()).collect();
    assert_eq!(names, ["Guidance", "a", "alerts", "news"]);
    assert_eq!(repo.list_updates_in_tag("news").unwrap().len(), 2);
    assert!(matches!(repo.list_updates_in_tag("none"), Err(RepoError::NotFound)));
    assert_eq!(repo.path_for("news"), "tmp/tags/news");
}

#[test]
fn a_line_that_is_no_reference_does_not_end_the_list() {
    let mut repo = TagRepo::new("tags").unwrap();
    let text = "http://example.org/a#2021-03-01T10:00:00+00:00\n\
                no reference\n\
                \n\
                http://example.org/a#yesterday\n\
                not a url#2021-03-01T10:00:00+00:00\n\
                http://example.org/b#2021-03-01T11:00:00+00:00\r\n\
                ended\r\n\
                open\r";
    repo.load("loaded".to_string(), text.to_string());
    let lines = repo.list_updates_in_tag("loaded").unwrap();
    assert_eq!(lines.len(), 8);
    assert!(matches!(&lines[6], Err(UpdateRefParseError::FragmentNotProvided(line)) if line == "ended"));
    assert!(matches!(&lines[7], Err(UpdateRefParseError::FragmentNotProvided(line)) if line == "open\r"));
    assert_eq!(*lines[0].as_ref().unwrap(), reference("http://example.org/a", "2021-03-01T10:00:00Z"));
    assert!(matches!(&lines[1], Err(UpdateRefParseError::FragmentNotProvided(line)) if line == "no reference"));
    assert!(matches!(&lines[2], Err(UpdateRefParseError::FragmentNotProvided(line)) if line.is_empty()));
    assert!(matches!(&lines[3], Err(UpdateRefParseError::ChronoParseError(_))));
    assert!(matches!(&lines[4], Err(UpdateRefParseError::UrlParseError(_))));
    assert_eq!(*lines[5].as_ref().unwrap(), reference("http://example.org/b", "2021-03-01T11:00:00Z"));

    let r = reference("http://example.org/c", "2021-03-01T12:00:00Z");
    let events = repo.tag_update("loaded".to_string(), r.clone()).unwrap().into_events().collect();
    assert_eq!(events, [TagEvent::UpdateTagged { tag: Tag::new("loaded".to_string()), update_ref: r }]);
}
