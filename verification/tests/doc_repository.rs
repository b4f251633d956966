use chrono::Utc;
use update_tracker::doc::repository::WRITE_AVOIDANCE_BUFFER_LIMIT;
use update_tracker::doc::{DocEvent, DocRepo, DocumentVersion};
use update_tracker::error::RepoError;
use update_tracker::time::Timestamp;
use update_tracker::url::Url;

fn now() -> Timestamp {
    let now = Utc::now();
    Timestamp::new(now.timestamp(), now.timestamp_subsec_nanos(), 0).unwrap()
}

fn seconds_before(timestamp: &Timestamp, seconds: i64) -> Timestamp {
    Timestamp::new(timestamp.secs() - seconds, timestamp.nanos(), timestamp.offset()).unwrap()
}

fn url(text: &str) -> Url {
    Url::parse(text).unwrap()
}

fn stamp(text: &str) -> Timestamp {
    Timestamp::parse(text).unwrap()
}

fn test_repo(name: &str) -> DocRepo {
    let path = format!("tmp/{}", name);
    DocRepo::new(&path).unwrap()
}

fn write(repo: &mut DocRepo, at: &str, timestamp: &str, content: &[u8]) -> (DocumentVersion, Vec<DocEvent>) {
    let mut write_avoidance_buffer = Vec::new();
    let mut writer = repo.create(url(at), stamp(timestamp), &mut write_avoidance_buffer).unwrap();
    writer.write_all(content).unwrap();
    let doc = writer.done().unwrap();
    let version = DocumentVersion::new(doc.url().clone(), *doc.timestamp());
    (version, doc.into_events().collect())
}

#[test]
fn repository_new_doc_creates_events_and_becomes_available() {
    let mut repo = test_repo("new_doc_creates_events_and_becomes_available");
    let url: Url = url("http://www.example.org/test/doc");
    let doc_content = "test document";
    let timestamp = now();
    let should = DocumentVersion::new(url.clone(), timestamp);

    let mut write_avoidance_buffer = Vec::new();
    let mut write = repo
        .create(url.clone(), timestamp, &mut write_avoidance_buffer)
        .unwrap();
    write.write_all(doc_content.as_bytes()).unwrap();

    let doc = write.done().unwrap();
    assert_eq!(*doc, should);
    let buf = repo.open(&doc).unwrap();
    assert_eq!(buf, doc_content.as_bytes());

    assert_eq!(
        doc.into_events().collect(),
        [
            DocEvent::Updated {
                url: url.clone(),
                timestamp
            },
            DocEvent::Created { url: url.clone() }
        ]
    );

    let doc: DocumentVersion = repo.ensure_version(url.clone(), timestamp).unwrap();
    assert_eq!(doc, should);
    let buf = repo.open(&doc).unwrap();
    assert_eq!(buf, doc_content.as_bytes());

    let doc = repo.list_versions(url.clone()).unwrap().remove(0);
    assert_eq!(doc, should);
    let buf = repo.open(&doc).unwrap();
    assert_eq!(buf, doc_content.as_bytes());
}

#[test]
fn repository_updated_doc_creates_event_and_becomes_available() {
    let mut repo = test_repo("updated_doc_creates_event_and_becomes_available");
    let url: Url = url("http://www.example.org/test/doc");
    let doc_content = "new content";
    let timestamp = now();
    let should = DocumentVersion::new(url.clone(), timestamp);

    let mut write_avoidance_buffer = Vec::new();
    let mut write = repo
        .create(
            url.clone(),
            seconds_before(&now(), 60),
            &mut write_avoidance_buffer,
        )
        .unwrap();
    write.write_all("old content".as_bytes()).unwrap();
    let doc = write.done().unwrap();
    let buf = repo.open(&doc).unwrap();
    assert_eq!(buf, "old content".as_bytes());

    let mut write = repo
        .create(url.clone(), timestamp, &mut write_avoidance_buffer)
        .unwrap();
    write.write_all(doc_content.as_bytes()).unwrap();
    let doc = write.done().unwrap();
    assert_eq!(*doc, should);
    let buf = repo.open(&doc).unwrap();
    assert_eq!(buf, doc_content.as_bytes());

    assert_eq!(
        doc.into_events().collect(),
        [DocEvent::Updated {
            url: url.clone(),
            timestamp
        },]
    );

    let doc: DocumentVersion = repo.ensure_version(url.clone(), timestamp).unwrap();
    assert_eq!(doc, should);
    let buf = repo.open(&doc).unwrap();
    assert_eq!(buf, doc_content.as_bytes());

    let mut list = repo.list_versions(url.clone()).unwrap();
    let doc = list.remove(0);
    assert_eq!(doc, should);
    let buf = repo.open(&doc).unwrap();
    assert_eq!(buf, doc_content.as_bytes());
    let _old = list.remove(0);
}

#[test]
fn repository_new_duplicate_is_deduplicated() {
    let mut repo = test_repo("new_duplicate_is_deduplicated");
    let url: Url = url("http://www.example.org/test/doc");
    let doc_content = "content";
    let later_timestamp = now();
    let earlier_timestamp = seconds_before(&later_timestamp, 60);
    let should = DocumentVersion::new(url.clone(), earlier_timestamp);

    let mut write_avoidance_buffer = Vec::new();
    let mut write = repo
        .create(url.clone(), earlier_timestamp, &mut write_avoidance_buffer)
        .unwrap();
    write.write_all(doc_content.as_bytes()).unwrap();
    let doc = write.done().unwrap();
    assert_eq!(*doc, should);

    let mut write = repo
        .create(url.clone(), later_timestamp, &mut write_avoidance_buffer)
        .unwrap();
    write.write_all("content".as_bytes()).unwrap();
    let doc2 = write.done().unwrap();
    assert_eq!(*doc, *doc2);

    assert_eq!(doc2.into_events().count(), 0);
}

#[test]
fn repository_old_duplicate_is_deduplicated() {
    let mut repo = test_repo("old_duplicate_is_deduplicated");
    let url: Url = url("http://www.example.org/test/doc");
    let doc_content = "content";
    let later_timestamp = now();
    let earlier_timestamp = seconds_before(&later_timestamp, 60);
    let should = DocumentVersion::new(url.clone(), earlier_timestamp);

    let mut write_avoidance_buffer = Vec::new();
    let mut write = repo
        .create(url.clone(), later_timestamp, &mut write_avoidance_buffer)
        .unwrap();
    write.write_all("content".as_bytes()).unwrap();
    let doc = write.done().unwrap();

    let mut write = repo
        .create(url.clone(), earlier_timestamp, &mut write_avoidance_buffer)
        .unwrap();
    write.write_all(doc_content.as_bytes()).unwrap();
    let doc2 = write.done().unwrap();
    assert_eq!(*doc2, should);

    assert!(repo.open(&doc).is_err());

    assert_eq!(
        doc2.into_events().collect(),
        [
            DocEvent::Updated {
                url: url.clone(),
                timestamp: earlier_timestamp
            },
            DocEvent::Deleted {
                url: url.clone(),
                timestamp: later_timestamp
            }
        ]
    );
}

const DOCS: [(&str, &str, &str); 5] = [
    ("http://www.example.org/test/doc1", "2021-03-01T10:00:00+00:00", "1"),
    ("http://www.example.org/test/doc1", "2021-03-01T11:00:00+00:00", "2"),
    ("http://www.example.org/test/doc1", "2021-03-01T12:00:00+00:00", "3"),
    ("http://www.example.org/test/doc2", "2021-03-01T11:00:00+00:00", "4"),
    ("http://www.example.org/test/doc2", "2021-03-01T12:00:00+00:00", "5"),
];

#[test]
fn repository_list_versions() {
    let mut repo = test_repo("doc::list_versions");

    let docs = &DOCS;

    let mut write_avoidance_buffer = Vec::new();
    for (url, timestamp, content) in docs {
        let mut write = repo
            .create(
                Url::parse(url).unwrap(),
                Timestamp::parse(timestamp).unwrap(),
                &mut write_avoidance_buffer,
            )
            .unwrap();
        write.write_all(content.as_bytes()).unwrap();
        let _ = write.done().unwrap();
    }

    let result = repo
        .list_versions(Url::parse("http://www.example.org/test/doc1").unwrap())
        .unwrap();
    assert_eq!(result.len(), 3);
    for (&(e_url, e_ts, e_content), actual) in docs[0..3].iter().rev().zip(result) {
        assert_eq!(actual.url().as_str(), e_url);
        assert_eq!(actual.timestamp().to_rfc3339(), e_ts);
        let buf = repo.open(&actual).unwrap();
        assert_eq!(buf, e_content.as_bytes());
    }
}

#[test]
fn repository_list_all() {
    let mut repo = test_repo("doc::list_all");

    let docs = &DOCS;

    let mut write_avoidance_buffer = Vec::new();
    for (url, timestamp, content) in docs {
        let mut write = repo
            .create(
                Url::parse(url).unwrap(),
                Timestamp::parse(timestamp).unwrap(),
                &mut write_avoidance_buffer,
            )
            .unwrap();
        write.write_all(content.as_bytes()).unwrap();
        let _ = write.done().unwrap();
    }

    let result: Vec<_> = repo
        .list_all(&Url::parse("http://www.example.org/").unwrap())
        .into_iter()
        .map(|doc| {
            let buf = repo.open(&doc).unwrap();
            (
                doc.url().as_str().to_string(),
                doc.timestamp().to_rfc3339(),
                String::from_utf8(buf).unwrap(),
            )
        })
        .collect();
    let sliced: Vec<_> = result.iter().map(|(a, b, c)| (&a[..], &b[..], &c[..])).collect();
    assert_eq!(sliced, docs);
}

#[test]
fn new_doc_single_version() {
    let mut repo = test_repo("case::new_doc");
    let (version, events) = write(&mut repo, "http://example.org/a", "2021-03-01T10:00:00+00:00", b"hello");
    let at = url("http://example.org/a");
    let t = stamp("2021-03-01T10:00:00+00:00");
    assert_eq!(
        events,
        [DocEvent::Updated { url: at.clone(), timestamp: t }, DocEvent::Created { url: at.clone() }]
    );
    assert_eq!(repo.open(&version).unwrap(), b"hello");
    assert_eq!(repo.list_versions(at.clone()).unwrap(), vec![DocumentVersion::new(at.clone(), t)]);
    assert_eq!(repo.document_exists(&at), Ok(true));
    assert_eq!(repo.document_exists(&url("http://example.org/b")), Ok(false));
}

#[test]
fn neighbour_dedup_against_earlier() {
    let mut repo = test_repo("case::dedup_earlier");
    let at = url("http://example.org/a");
    let t1 = stamp("2021-03-01T10:00:00Z");
    let t2 = stamp("2021-03-01T11:00:00Z");
    write(&mut repo, "http://example.org/a", "2021-03-01T10:00:00Z", b"X");
    let (version, events) = write(&mut repo, "http://example.org/a", "2021-03-01T11:00:00Z", b"X");
    assert_eq!(version, DocumentVersion::new(at.clone(), t1));
    assert_eq!(events, []);
    assert_eq!(repo.ensure_version(at.clone(), t2), Err(RepoError::NotFound));
    assert_eq!(repo.list_versions(at.clone()).unwrap().len(), 1);
}

#[test]
fn neighbour_dedup_against_later() {
    let mut repo = test_repo("case::dedup_later");
    let at = url("http://example.org/a");
    let t1 = stamp("2021-03-01T10:00:00Z");
    let t2 = stamp("2021-03-01T11:00:00Z");
    write(&mut repo, "http://example.org/a", "2021-03-01T11:00:00Z", b"Y");
    let (version, events) = write(&mut repo, "http://example.org/a", "2021-03-01T10:00:00Z", b"Y");
    assert_eq!(version, DocumentVersion::new(at.clone(), t1));
    assert_eq!(
        events,
        [
            DocEvent::Updated { url: at.clone(), timestamp: t1 },
            DocEvent::Deleted { url: at.clone(), timestamp: t2 }
        ]
    );
    assert_eq!(repo.ensure_version(at.clone(), t2), Err(RepoError::NotFound));
    assert_eq!(repo.open(&version).unwrap(), b"Y");
    assert_eq!(repo.list_versions(at.clone()).unwrap(), vec![DocumentVersion::new(at, t1)]);
}

#[test]
fn both_neighbours_match_and_the_earlier_one_wins() {
    let mut repo = test_repo("dedup_both");
    let at = url("http://example.org/a");
    write(&mut repo, "http://example.org/a", "2021-03-01T10:00:00Z", b"same");
    write(&mut repo, "http://example.org/a", "2021-03-01T11:00:00Z", b"other");
    write(&mut repo, "http://example.org/a", "2021-03-01T12:00:00Z", b"same");
    let mut buffer = Vec::new();
    let mut writer = repo.create(at.clone(), stamp("2021-03-01T11:30:00Z"), &mut buffer).unwrap();
    writer.write_all(b"other").unwrap();
    let doc = writer.done().unwrap();
    assert_eq!(*doc, DocumentVersion::new(at.clone(), stamp("2021-03-01T11:00:00Z")));
    assert_eq!(doc.into_events().count(), 0);
    assert_eq!(repo.list_versions(at).unwrap().len(), 3);
}

#[test]
fn a_neighbour_that_is_longer_or_shorter_is_no_duplicate() {
    let mut repo = test_repo("dedup_prefix");
    let at = url("http://example.org/a");
    write(&mut repo, "http://example.org/a", "2021-03-01T10:00:00Z", b"abcdef");
    let (longer, events) = write(&mut repo, "http://example.org/a", "2021-03-01T11:00:00Z", b"abcdefgh");
    assert_eq!(longer, DocumentVersion::new(at.clone(), stamp("2021-03-01T11:00:00Z")));
    assert_eq!(events.len(), 1);
    let (shorter, events) = write(&mut repo, "http://example.org/a", "2021-03-01T12:00:00Z", b"abc");
    assert_eq!(shorter, DocumentVersion::new(at.clone(), stamp("2021-03-01T12:00:00Z")));
    assert_eq!(events.len(), 1);
    let (empty, events) = write(&mut repo, "http://example.org/a", "2021-03-01T13:00:00Z", b"");
    assert_eq!(empty, DocumentVersion::new(at.clone(), stamp("2021-03-01T13:00:00Z")));
    assert_eq!(events.len(), 1);
    assert_eq!(repo.open(&empty).unwrap(), b"");
    assert_eq!(repo.list_versions(at).unwrap().len(), 4);
}

#[test]
fn creating_a_stored_version_again_is_refused() {
    let mut repo = test_repo("already_exists");
    write(&mut repo, "http://example.org/a", "2021-03-01T10:00:00Z", b"X");
    let mut buffer = vec![1, 2, 3];
    let again = repo.create(url("http://example.org/a"), stamp("2021-03-01T10:00:00Z"), &mut buffer);
    assert!(matches!(again, Err(RepoError::AlreadyExists)));
    assert!(buffer.is_empty());
}

#[test]
fn content_beyond_the_buffer_is_kept_whole() {
    let mut repo = test_repo("large");
    let at = url("http://example.org/large");
    let first: Vec<u8> = (0..WRITE_AVOIDANCE_BUFFER_LIMIT + 5000).map(|i| (i % 251) as u8).collect();
    let mut second = first.clone();
    let last = second.len() - 1;
    second[last] ^= 1;

    let mut buffer = Vec::new();
    let mut writer = repo.create(at.clone(), stamp("2021-03-01T10:00:00Z"), &mut buffer).unwrap();
    for piece in first.chunks(700) {
        assert_eq!(writer.write(piece), Ok(piece.len()));
    }
    let doc = writer.done().unwrap();
    assert_eq!(repo.open(&doc).unwrap(), first);

    let mut writer = repo.create(at.clone(), stamp("2021-03-01T11:00:00Z"), &mut buffer).unwrap();
    for piece in second.chunks(4000) {
        writer.write_all(piece).unwrap();
    }
    let doc = writer.done().unwrap();
    assert_eq!(*doc, DocumentVersion::new(at.clone(), stamp("2021-03-01T11:00:00Z")));
    assert_eq!(repo.open(&doc).unwrap(), second);

    let mut writer = repo.create(at.clone(), stamp("2021-03-01T12:00:00Z"), &mut buffer).unwrap();
    writer.write_all(&second).unwrap();
    let doc = writer.done().unwrap();
    assert_eq!(*doc, DocumentVersion::new(at.clone(), stamp("2021-03-01T11:00:00Z")));
    assert_eq!(doc.into_events().count(), 0);
    assert_eq!(repo.list_versions(at).unwrap().len(), 2);
}

fn offsets(versions: &[DocumentVersion]) -> Vec<(String, i32)> {
    versions.iter().map(|v| (v.timestamp().to_rfc3339(), v.timestamp().offset())).collect()
}

#[test]
fn versions_are_listed_by_time_whatever_their_offsets() {
    let mut repo = test_repo("offsets");
    let at = url("http://example.org/a");
    write(&mut repo, "http://example.org/a", "2021-03-01T10:00:00+00:00", b"1");
    write(&mut repo, "http://example.org/a", "2021-03-01T10:30:00+01:00", b"2");
    let listed = repo.list_versions(at.clone()).unwrap();
    assert_eq!(listed[0], DocumentVersion::new(at.clone(), stamp("2021-03-01T10:00:00+00:00")));
    assert_eq!(listed[1], DocumentVersion::new(at.clone(), stamp("2021-03-01T10:30:00+01:00")));
    let all = repo.list_all(&url("http://example.org/"));
    assert_eq!(all[0], DocumentVersion::new(at.clone(), stamp("2021-03-01T10:30:00+01:00")));
    assert_eq!(all[1], DocumentVersion::new(at, stamp("2021-03-01T10:00:00+00:00")));
}

#[test]
fn a_version_of_the_same_instant_is_no_neighbour() {
    let mut repo = test_repo("ties");
    let at = url("http://example.org/a");
    let (first, _) = write(&mut repo, "http://example.org/a", "2021-03-01T10:00:00+00:00", b"same");
    let (tie, events) = write(&mut repo, "http://example.org/a", "2021-03-01T11:00:00+01:00", b"same");
    assert_eq!(tie.timestamp().offset(), 3600);
    assert_eq!(
        events,
        [DocEvent::Updated { url: at.clone(), timestamp: stamp("2021-03-01T11:00:00+01:00") }]
    );
    assert_eq!(first.timestamp().offset(), 0);
    assert_eq!(
        offsets(&repo.list_versions(at.clone()).unwrap()),
        [("2021-03-01T11:00:00+01:00".to_string(), 3600), ("2021-03-01T10:00:00+00:00".to_string(), 0)]
    );
    assert_eq!(
        offsets(&repo.list_all(&at)),
        [("2021-03-01T10:00:00+00:00".to_string(), 0), ("2021-03-01T11:00:00+01:00".to_string(), 3600)]
    );
    let mut buffer = Vec::new();
    assert!(matches!(
        repo.create(at.clone(), stamp("2021-03-01T10:00:00+00:00"), &mut buffer),
        Err(RepoError::AlreadyExists)
    ));
}

const EARLY: &str = "2021-03-01T09:00:00+00:00";
const NOON: &str = "2021-03-01T10:00:00+00:00";
const NOON_WEST: &str = "2021-03-01T09:00:00-01:00";
const NOON_EAST: &str = "2021-03-01T11:00:00+01:00";
const LATE: &str = "2021-03-01T11:00:00+00:00";

fn names(repo: &DocRepo) -> Vec<String> {
    repo.list_all(&url("http://example.org/")).iter().map(|v| v.timestamp().to_rfc3339()).collect()
}

#[test]
fn a_tie_does_not_hide_the_version_before() {
    let mut repo = test_repo("tie_before");
    write(&mut repo, "http://example.org/a", EARLY, b"B");
    write(&mut repo, "http://example.org/a", NOON_WEST, b"other");
    let (kept, events) = write(&mut repo, "http://example.org/a", NOON, b"B");
    assert_eq!(kept.timestamp().to_rfc3339(), EARLY);
    assert_eq!(events, []);
    assert_eq!(names(&repo), [EARLY, NOON_WEST]);
}

#[test]
fn a_tie_does_not_hide_the_version_after() {
    let mut repo = test_repo("tie_after");
    let at = url("http://example.org/a");
    write(&mut repo, "http://example.org/a", LATE, b"B");
    write(&mut repo, "http://example.org/a", NOON_EAST, b"other");
    let (stored, events) = write(&mut repo, "http://example.org/a", NOON, b"B");
    assert_eq!(stored.timestamp().to_rfc3339(), NOON);
    assert_eq!(
        events,
        [
            DocEvent::Updated { url: at.clone(), timestamp: stamp(NOON) },
            DocEvent::Deleted { url: at.clone(), timestamp: stamp(LATE) }
        ]
    );
    assert_eq!(names(&repo), [NOON, NOON_EAST]);
}

#[test]
fn a_tie_with_the_same_bytes_is_no_duplicate() {
    let mut repo = test_repo("tie_same");
    let at = url("http://example.org/a");
    write(&mut repo, "http://example.org/a", NOON_WEST, b"B");
    let (stored, events) = write(&mut repo, "http://example.org/a", NOON, b"B");
    assert_eq!(stored.timestamp().to_rfc3339(), NOON);
    assert_eq!(events, [DocEvent::Updated { url: at.clone(), timestamp: stamp(NOON) }]);
    assert_eq!(names(&repo), [NOON_WEST, NOON]);
    assert_eq!(repo.open(&stored).unwrap(), b"B");
}

#[test]
fn the_earlier_neighbour_wins_whatever_stands_at_the_instant() {
    let mut repo = test_repo("tie_both");
    write(&mut repo, "http://example.org/a", EARLY, b"B");
    write(&mut repo, "http://example.org/a", NOON_WEST, b"other");
    let (late, events) = write(&mut repo, "http://example.org/a", LATE, b"B");
    assert_eq!(late.timestamp().to_rfc3339(), LATE);
    assert_eq!(events.len(), 1);
    let (kept, events) = write(&mut repo, "http://example.org/a", NOON, b"B");
    assert_eq!(kept.timestamp().to_rfc3339(), EARLY);
    assert_eq!(events, []);
    assert_eq!(names(&repo), [EARLY, NOON_WEST, LATE]);
}

#[test]
fn of_the_versions_of_one_instant_the_greatest_offset_is_the_neighbour() {
    let mut repo = test_repo("tie_choice");
    write(&mut repo, "http://example.org/a", NOON_WEST, b"west");
    write(&mut repo, "http://example.org/a", NOON_EAST, b"east");
    write(&mut repo, "http://example.org/a", NOON, b"noon");
    let (kept, events) = write(&mut repo, "http://example.org/a", LATE, b"east");
    assert_eq!(kept.timestamp().to_rfc3339(), NOON_EAST);
    assert_eq!(events, []);
    let (stored, events) = write(&mut repo, "http://example.org/a", LATE, b"west");
    assert_eq!(stored.timestamp().to_rfc3339(), LATE);
    assert_eq!(events.len(), 1);
    let (stored, events) = write(&mut repo, "http://example.org/a", EARLY, b"east");
    assert_eq!(stored.timestamp().to_rfc3339(), EARLY);
    assert_eq!(events.len(), 2);
    assert_eq!(names(&repo), [EARLY, NOON_WEST, NOON, LATE]);
}

#[test]
fn a_document_comes_before_the_documents_below_it() {
    let mut repo = test_repo("order");
    write(&mut repo, "http://example.org/a-b", "2021-03-01T10:00:00Z", b"1");
    write(&mut repo, "http://example.org/a/c", "2021-03-01T10:00:00Z", b"2");
    write(&mut repo, "http://example.org/a", "2021-03-01T10:00:00Z", b"3");
    write(&mut repo, "http://other.org/a", "2021-03-01T10:00:00Z", b"4");
    let all: Vec<String> = repo
        .list_all(&url("http://example.org/"))
        .iter()
        .map(|doc| doc.url().as_str().to_string())
        .collect();
    assert_eq!(all, ["http://example.org/a", "http://example.org/a/c", "http://example.org/a-b"]);
    let below: Vec<String> = repo
        .list_all(&url("http://example.org/a"))
        .iter()
        .map(|doc| doc.url().as_str().to_string())
        .collect();
    assert_eq!(below, ["http://example.org/a", "http://example.org/a/c"]);
    assert!(matches!(repo.list_versions(url("http://example.org/none")), Err(RepoError::NotFound)));
    assert_eq!(
        DocumentVersion::new(url("http://example.org/a"), stamp("2021-03-01T10:00:00Z")).describe(),
        "Doc retrieved at 2021-03-01T10:00:00+00:00 on http://example.org/a"
    );
}

#[test]
fn stored_leaves_are_taken_in_as_they_are() {
    let mut repo = test_repo("take_in");
    let at = url("http://example.org/a");
    assert_eq!(repo.take_in(&at, "2021-03-01T10:00:00+00:00", b"X".to_vec()), Ok(()));
    assert_eq!(repo.take_in(&at, "2021-03-01T12:00:00+00:00", b"Y".to_vec()), Ok(()));
    assert_eq!(repo.take_in(&at, "2021-03-01T10:00:00Z", b"Z".to_vec()), Err(RepoError::Parse));
    assert_eq!(repo.take_in(&at, "yesterday", b"Z".to_vec()), Err(RepoError::Parse));
    assert_eq!(repo.take_in(&at, "2021-03-01T10:00:00+00:00", b"Z".to_vec()), Err(RepoError::AlreadyExists));
    assert_eq!(
        repo.take_in(&at, "2021-03-01T11:00:00+00:00", b"X".to_vec()),
        Err(RepoError::InvariantViolation)
    );
    assert_eq!(
        repo.take_in(&at, "2021-03-01T11:00:00+00:00", b"Y".to_vec()),
        Err(RepoError::InvariantViolation)
    );
    assert_eq!(repo.take_in(&at, "2021-03-01T11:00:00+01:00", b"X".to_vec()), Ok(()));
    assert_eq!(repo.take_in(&at, "2021-03-01T11:00:00+00:00", b"Z".to_vec()), Ok(()));
    assert_eq!(
        names(&repo),
        [
            "2021-03-01T10:00:00+00:00",
            "2021-03-01T11:00:00+01:00",
            "2021-03-01T11:00:00+00:00",
            "2021-03-01T12:00:00+00:00"
        ]
    );
    assert_eq!(repo.open(&DocumentVersion::new(at, stamp("2021-03-01T11:00:00+01:00"))).unwrap(), b"X");
}
