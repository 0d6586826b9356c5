use git_rs::staging::StagingArea;
use git_rs::strmap::StrMap;
use git_rs::commit::{Commit, CommitMeta, sha1};
use git_rs::digest::crypto_string;
use git_rs::error::GitError;

#[test]
fn staged_area_serialized_deserialized_ut() {
    let mut area = StagingArea::new();
    area.add("file1".to_string(), "hash1".to_string());
    area.add("file2".to_string(), "hash2".to_string());

    let serialized = area.encode();
    assert_eq!(
        r#"{"staged":{"file1":"hash1","file2":"hash2"},"deleted":{}}"#,
        serialized
    );

    let deserialized: StagingArea = StagingArea::decode(&serialized).unwrap();
    assert_eq!(2, deserialized.staged.len());
    assert_eq!("hash1", deserialized.staged.get(&"file1".to_string()).unwrap().as_str());
    assert_eq!("hash2", deserialized.staged.get(&"file2".to_string()).unwrap().as_str());
}

#[test]
fn staged_area_serialized_deserialized_empty_map_ut() {
    let area = StagingArea::new();

    let serialized = area.encode();
    assert_eq!(r#"{"staged":{},"deleted":{}}"#, serialized);

    let deserialized: StagingArea = StagingArea::decode(&serialized).unwrap();
    assert_eq!(0, deserialized.staged.len());
}

#[test]
fn sha1_commit_ut() {
    let commit = Commit::new();
    let sha1 = sha1(&commit).unwrap();
    assert_eq!("a4afecc02e1a215819ddec84b69e1b51b7b27821", sha1);
}

#[test]
fn crypto_string_ut() {
    let hash = crypto_string("This is a demo content for crypto_string_ut");
    assert_eq!("cc9eef9cdbe8b198eddf07651446ad9cdf1446f3", hash);
}

#[test]
fn commit_serialized_matches_canonical_form() {
    let mut blobs = StrMap::new();
    blobs.insert("file1".to_string(), "hash1".to_string());
    blobs.insert("file2".to_string(), "hash2".to_string());
    let commit = Commit {
        meta: CommitMeta {
            message: "persist commit ut message".to_string(),
            date_time: 1234567890,
        },
        blobs,
        parent: "mock_parent".to_string(),
    };
    assert_eq!(
        r#"{"meta":{"message":"persist commit ut message","date_time":1234567890},"blobs":{"file1":"hash1","file2":"hash2"},"parent":"mock_parent"}"#,
        commit.encode()
    );
}

#[test]
fn commit_round_trips_through_its_encoding() {
    let mut blobs = StrMap::new();
    blobs.insert("file1".to_string(), "hash1".to_string());
    blobs.insert("file2".to_string(), "hash2".to_string());
    let commit = Commit {
        meta: CommitMeta {
            message: "persist commit ut message".to_string(),
            date_time: 1234567890,
        },
        blobs,
        parent: "mock_parent".to_string(),
    };
    let text = commit.encode();
    let back = Commit::decode(&text).unwrap();
    assert_eq!(commit, back);
}

#[test]
fn commit_with_negative_timestamp_round_trips() {
    let commit = Commit {
        meta: CommitMeta {
            message: "before the epoch".to_string(),
            date_time: -1234567890,
        },
        blobs: StrMap::new(),
        parent: String::new(),
    };
    let text = commit.encode();
    assert!(text.contains("\"date_time\":-1234567890"));
    let back = Commit::decode(&text).unwrap();
    assert_eq!(commit, back);
}

#[test]
fn staging_area_with_escaped_characters_round_trips() {
    let mut area = StagingArea::new();
    area.add("a\"b\nc".to_string(), "h1".to_string());
    area.add("tab\tand\\slash".to_string(), "h2".to_string());
    area.add("ctl\u{1}end".to_string(), "h3".to_string());

    let serialized = area.encode();
    assert_eq!(
        "{\"staged\":{\"a\\\"b\\nc\":\"h1\",\"ctl\\u0001end\":\"h3\",\"tab\\tand\\\\slash\":\"h2\"},\"deleted\":{}}",
        serialized
    );
    let back = StagingArea::decode(&serialized).unwrap();
    assert_eq!(area, back);
}

#[test]
fn staging_area_decode_rejects_malformed_text() {
    match StagingArea::decode("not a staging record") {
        Err(GitError::SerdeOpError(_)) => (),
        other => panic!("unexpected outcome: {:?}", other),
    }
}

#[test]
fn staging_area_decode_rejects_unsorted_keys() {
    match StagingArea::decode(r#"{"staged":{"b":"1","a":"2"},"deleted":{}}"#) {
        Err(GitError::SerdeOpError(_)) => (),
        other => panic!("unexpected outcome: {:?}", other),
    }
}

#[test]
fn staging_area_decode_rejects_overlapping_sets() {
    match StagingArea::decode(r#"{"staged":{"f1":"h"},"deleted":{"f1":""}}"#) {
        Err(GitError::SerdeOpError(_)) => (),
        other => panic!("unexpected outcome: {:?}", other),
    }
}

#[test]
fn commit_decode_rejects_malformed_text() {
    match Commit::decode(r#"{"meta":{"message":"x","date_time":}}"#) {
        Err(GitError::SerdeOpError(_)) => (),
        other => panic!("unexpected outcome: {:?}", other),
    }
}

#[test]
fn staging_area_decode_of_empty_text_is_a_fresh_area() {
    let area = StagingArea::decode("").unwrap();
    assert_eq!(StagingArea::new(), area);
}
