use chrono::Utc;
use update_tracker::error::RepoError;
use update_tracker::time::Timestamp;
use update_tracker::update::{Update, UpdateEvent, UpdateRepo};
use update_tracker::url::Url;

fn now() -> Timestamp {
    let now = Utc::now();
    Timestamp::new(now.timestamp(), now.timestamp_subsec_nanos(), 0).unwrap()
}

fn minutes_before(timestamp: &Timestamp, minutes: i64) -> Timestamp {
    Timestamp::new(timestamp.secs() - 60 * minutes, timestamp.nanos(), timestamp.offset()).unwrap()
}

fn url(text: &str) -> Url {
    Url::parse(text).unwrap()
}

fn stamp(text: &str) -> Timestamp {
    Timestamp::parse(text).unwrap()
}

fn test_repo(name: &str) -> UpdateRepo {
    let path = format!("tmp/{}", name);
    UpdateRepo::new(&path).unwrap()
}

#[test]
fn old_update_creates_events_and_becomes_available() {
    let mut repo = test_repo("update::new_update_creates_events_and_becomes_available");
    let url: Url = url("http://www.example.org/test/doc");
    let timestamp = minutes_before(&now(), 60);
    let change = "older change";
    let should = Update::new(url.clone(), timestamp, change.to_owned());

    let update = repo.create(url.clone(), now(), "newest change").unwrap();
    assert_eq!(update.into_events().count(), 2);

    let update = repo.create(url.clone(), timestamp, change).unwrap();
    assert_eq!(*update, should);

    assert_eq!(
        update.into_events().collect(),
        [UpdateEvent::Added {
            url: url.clone(),
            timestamp
        }]
    );

    let update: Update = repo.get_update(url.clone(), timestamp).unwrap();
    assert_eq!(update, should);

    let mut list = repo.list_updates(url.clone()).unwrap();
    let update = list.remove(0);
    assert_eq!(update.change(), "newest change");
    let update = list.remove(0);
    assert_eq!(update, should);
}

#[test]
fn newer_update_creates_event_and_becomes_available() {
    let mut repo = test_repo("update::newer_update_creates_event_and_becomes_available");
    let url: Url = url("http://www.example.org/test/doc");
    let change = "new change";
    let timestamp = now();
    let should = Update::new(url.clone(), timestamp, change.to_owned());

    let update = repo
        .create(url.clone(), minutes_before(&timestamp, 60), "old change")
        .unwrap();
    assert_eq!(update.into_events().count(), 2);

    let update = repo.create(url.clone(), timestamp, change).unwrap();
    assert_eq!(*update, should);
    assert_eq!(
        update.into_events().collect(),
        [
            UpdateEvent::Added {
                url: url.clone(),
                timestamp
            },
            UpdateEvent::New {
                url: url.clone(),
                timestamp
            }
        ]
    );

    let update: Update = repo.get_update(url.clone(), timestamp).unwrap();
    assert_eq!(update, should);

    let mut list = repo.list_updates(url.clone()).unwrap();
    let update = list.remove(0);
    assert_eq!(update, should);
    let update = list.remove(0);
    assert_eq!(update.change(), "old change");
}

#[test]
fn old_update_ensure_creates_events_and_becomes_available() {
    let mut repo = test_repo("update::old_update_ensure_creates_events_and_becomes_available");
    let url: Url = url("http://www.example.org/test/doc");
    let timestamp = minutes_before(&now(), 60);
    let change = "older change";
    let should = Update::new(url.clone(), timestamp, change.to_owned());

    let update = repo.ensure(url.clone(), now(), "newest change").unwrap();
    assert_eq!(update.into_events().count(), 2);

    let update = repo.ensure(url.clone(), timestamp, change).unwrap();
    assert_eq!(*update, should);
    assert_eq!(
        update.into_events().collect(),
        [UpdateEvent::Added {
            url: url.clone(),
            timestamp
        }]
    );

    let update: Update = repo.get_update(url.clone(), timestamp).unwrap();
    assert_eq!(update, should);

    let mut list = repo.list_updates(url.clone()).unwrap();
    let update = list.remove(0);
    assert_eq!(update.change(), "newest change");
    let update = list.remove(0);
    assert_eq!(update, should);
}

#[test]
fn newer_update_ensure_creates_event_and_becomes_available() {
    let mut repo = test_repo("update::newer_update_ensure_creates_event_and_becomes_available");
    let url: Url = url("http://www.example.org/test/doc");
    let change = "new change";
    let timestamp = now();
    let should = Update::new(url.clone(), timestamp, change.to_owned());

    let update = repo
        .ensure(url.clone(), minutes_before(&timestamp, 60), "old change")
        .unwrap();
    assert_eq!(update.into_events().count(), 2);

    let update = repo.ensure(url.clone(), timestamp, change).unwrap();
    assert_eq!(*update, should);
    assert_eq!(
        update.into_events().collect(),
        [
            UpdateEvent::Added {
                url: url.clone(),
                timestamp
            },
            UpdateEvent::New {
                url: url.clone(),
                timestamp
            }
        ]
    );

    let update: Update = repo.get_update(url.clone(), timestamp).unwrap();
    assert_eq!(update, should);

    let mut list = repo.list_updates(url.clone()).unwrap();
    let update = list.remove(0);
    assert_eq!(update, should);
    let update = list.remove(0);
    assert_eq!(update.change(), "old change");
}

#[test]
fn existing_update_ensure_is_noop() {
    let mut repo = test_repo("update::existing_update_ensure_is_noop");
    let url: Url = url("http://www.example.org/test/doc");
    let change = "existing change";
    let timestamp = now();
    let should = Update::new(url.clone(), timestamp, change.to_owned());

    let update = repo.ensure(url.clone(), timestamp, change).unwrap();
    assert_eq!(update.into_events().count(), 2);

    let update = repo.ensure(url.clone(), timestamp, change).unwrap();
    assert_eq!(*update, should);
    assert_eq!(update.into_events().count(), 0);

    let update: Update = repo.get_update(url.clone(), timestamp).unwrap();
    assert_eq!(update, should);

    let mut list = repo.list_updates(url.clone()).unwrap();
    let update = list.remove(0);
    assert_eq!(update, should);
    assert!(list.is_empty());
}

const DOCS: [(&str, &str, &str); 5] = [
    ("http://www.example.org/test/doc1", "2021-03-01T10:00:00+00:00", "1"),
    ("http://www.example.org/test/doc1", "2021-03-01T11:00:00+00:00", "2"),
    ("http://www.example.org/test/doc1", "2021-03-01T12:00:00+00:00", "3"),
    ("http://www.example.org/test/doc2", "2021-03-01T11:00:00+00:00", "4"),
    ("http://www.example.org/test/doc2", "2021-03-01T12:00:00+00:00", "5"),
];

#[test]
fn list_updates() {
    let mut repo = test_repo("update::list_updates");

    let docs = &DOCS;

    for (url, timestamp, content) in docs {
        let _ = repo
            .create(Url::parse(url).unwrap(), Timestamp::parse(timestamp).unwrap(), content)
            .unwrap();
    }

    let result = repo
        .list_updates(Url::parse("http://www.example.org/test/doc1").unwrap())
        .unwrap();
    assert_eq!(result.len(), 3);
    for (&(e_url, e_ts, e_content), actual) in docs[0..3].iter().rev().zip(result) {
        assert_eq!(actual.url().as_str(), e_url);
        assert_eq!(actual.timestamp().to_rfc3339(), e_ts);
        assert_eq!(actual.change(), e_content);
    }
}

#[test]
fn list_all() {
    let mut repo = test_repo("update::list_all");

    let docs = &DOCS;

    for (url, timestamp, content) in docs {
        let _ = repo
            .create(Url::parse(url).unwrap(), Timestamp::parse(timestamp).unwrap(), content)
            .unwrap();
    }

    let result = repo.list_all(&Url::parse("http://www.example.org/").unwrap());
    assert_eq!(result.len(), 5);
    for (&(e_url, e_ts, e_content), actual) in docs.iter().zip(result) {
        assert_eq!(actual.url().as_str(), e_url);
        assert_eq!(actual.timestamp().to_rfc3339(), e_ts);
        assert_eq!(actual.change(), e_content);
    }
}

#[test]
fn latest_and_new_event() {
    let mut repo = test_repo("case::latest");
    let at = url("http://example.org/a");
    let t1 = stamp("2021-03-01T10:00:00Z");
    let t2 = stamp("2021-03-01T11:00:00Z");
    let t3 = stamp("2021-03-01T12:00:00Z");
    assert_eq!(repo.latest(&at), Err(RepoError::NotFound));
    let events = repo.create(at.clone(), t3, "three").unwrap().into_events().collect();
    assert_eq!(
        events,
        [
            UpdateEvent::Added { url: at.clone(), timestamp: t3 },
            UpdateEvent::New { url: at.clone(), timestamp: t3 }
        ]
    );
    let events = repo.create(at.clone(), t1, "one").unwrap().into_events().collect();
    assert_eq!(events, [UpdateEvent::Added { url: at.clone(), timestamp: t1 }]);
    assert_eq!(repo.latest(&at), Ok(t3));
    let events = repo.create(at.clone(), t2, "two").unwrap().into_events().collect();
    assert_eq!(events, [UpdateEvent::Added { url: at.clone(), timestamp: t2 }]);
    assert_eq!(repo.latest(&at), Ok(t3));
}

#[test]
fn ensure_idempotence() {
    let mut repo = test_repo("case::ensure");
    let at = url("http://example.org/a");
    let t = stamp("2021-03-01T10:00:00Z");
    let first = repo.ensure(at.clone(), t, "c").unwrap().into_events().collect();
    assert_eq!(
        first,
        [
            UpdateEvent::Added { url: at.clone(), timestamp: t },
            UpdateEvent::New { url: at.clone(), timestamp: t }
        ]
    );
    let second = repo.ensure(at.clone(), t, "c").unwrap().into_events().collect();
    assert_eq!(second, []);
    assert_eq!(repo.get_update(at.clone(), t).unwrap().change(), "c");
    assert_eq!(repo.list_updates(at.clone()).unwrap().len(), 1);
    assert!(matches!(repo.ensure(at.clone(), t, "d"), Err(RepoError::AlreadyExists)));
    assert_eq!(repo.get_update(at, t).unwrap().change(), "c");
}

#[test]
fn an_update_is_stored_once() {
    let mut repo = test_repo("update::once");
    let at = url("http://example.org/a");
    let t = stamp("2021-03-01T10:00:00Z");
    repo.create(at.clone(), t, "first").unwrap();
    assert!(matches!(repo.create(at.clone(), t, "first"), Err(RepoError::AlreadyExists)));
    assert!(matches!(repo.create(at.clone(), t, "second"), Err(RepoError::AlreadyExists)));
    assert_eq!(repo.get_update(at.clone(), t).unwrap().change(), "first");
    assert!(matches!(
        repo.get_update(at.clone(), stamp("2021-03-01T10:00:01Z")),
        Err(RepoError::NotFound)
    ));
    assert!(matches!(
        repo.get_update(url("http://example.org/b"), t),
        Err(RepoError::NotFound)
    ));
    assert!(matches!(repo.list_updates(url("http://example.org/b")), Err(RepoError::NotFound)));
}

#[test]
fn a_change_is_any_text() {
    let mut repo = test_repo("update::texts");
    let at = url("http://example.org/a");
    let empty = stamp("2021-03-01T10:00:00Z");
    let wide = stamp("2021-03-01T11:00:00Z");
    repo.create(at.clone(), empty, "").unwrap();
    repo.create(at.clone(), wide, "Ünïcödé – 変更\n2nd line").unwrap();
    assert_eq!(repo.get_update(at.clone(), empty).unwrap().change(), "");
    assert_eq!(repo.get_update(at.clone(), wide).unwrap().change(), "Ünïcödé – 変更\n2nd line");
    assert_eq!(
        repo.get_update(at, wide).unwrap().describe(),
        "Update at 2021-03-01T11:00:00+00:00 on http://example.org/a"
    );
}

#[test]
fn an_update_at_the_instant_of_a_stored_one_is_not_new() {
    let mut repo = test_repo("update::tie");
    let at = url("http://example.org/a");
    let west = stamp("2021-03-01T09:00:00-01:00");
    let noon = stamp("2021-03-01T10:00:00+00:00");
    let east = stamp("2021-03-01T11:00:00+01:00");
    let events = repo.create(at.clone(), west, "west").unwrap().into_events().collect();
    assert_eq!(events.len(), 2);
    let events = repo.create(at.clone(), noon, "noon").unwrap().into_events().collect();
    assert_eq!(events, [UpdateEvent::Added { url: at.clone(), timestamp: noon }]);
    let events = repo.create(at.clone(), east, "east").unwrap().into_events().collect();
    assert_eq!(events, [UpdateEvent::Added { url: at.clone(), timestamp: east }]);
    assert!(matches!(repo.create(at.clone(), noon, "again"), Err(RepoError::AlreadyExists)));
    assert_eq!(repo.latest(&at).unwrap().offset(), 3600);
    assert_eq!(repo.get_update(at.clone(), west).unwrap().change(), "west");
    assert_eq!(repo.get_update(at.clone(), east).unwrap().change(), "east");
    let listed: Vec<String> =
        repo.list_updates(at.clone()).unwrap().iter().map(|u| u.change().to_string()).collect();
    assert_eq!(listed, ["east", "noon", "west"]);
    let later = stamp("2021-03-01T10:00:01+00:00");
    let events = repo.create(at.clone(), later, "later").unwrap().into_events().collect();
    assert_eq!(
        events,
        [
            UpdateEvent::Added { url: at.clone(), timestamp: later },
            UpdateEvent::New { url: at.clone(), timestamp: later }
        ]
    );
}

#[test]
fn stored_updates_are_taken_in_as_they_are() {
    let mut repo = test_repo("update::take_in");
    let at = url("http://example.org/a");
    assert_eq!(repo.take_in(&at, "2021-03-01T10:00:00+00:00", b"one".to_vec()), Ok(()));
    assert_eq!(repo.take_in(&at, "2021-03-01T10:00:00+00:00", b"two".to_vec()), Err(RepoError::AlreadyExists));
    assert_eq!(repo.take_in(&at, "2021-03-01 11:00:00+00:00", b"two".to_vec()), Err(RepoError::Parse));
    assert_eq!(repo.take_in(&at, "2021-03-01T11:00:00+00:00", vec![0xff]), Err(RepoError::Parse));
    assert_eq!(repo.take_in(&at, "2021-03-01T11:00:00+00:00", b"one".to_vec()), Ok(()));
    assert_eq!(repo.get_update(at.clone(), stamp("2021-03-01T10:00:00Z")).unwrap().change(), "one");
    assert_eq!(repo.list_updates(at).unwrap().len(), 2);
}
