//! Tests for the commit identifier and the record, block and commit
//! codecs.

use fursion::commit::{Commit, CommitId, FileChange, FileChangeOperation, FileChanges};
use fursion::error::{CommitParseFailedReason, Error};

/// Tests if commit id to/from hex conversion works
#[test]
fn commit_id_hex() {
    let commit = Commit::new("test", FileChanges::default());
    assert_eq!(commit.id, CommitId::from_hex(&commit.id.to_hex()).unwrap());
}

#[test]
fn commit_id_hex_format() {
    let commit = Commit::new("test", FileChanges::default());
    let hex = commit.id.to_hex();
    assert_eq!(hex.len(), 6);
    for c in hex.chars() {
        assert!(c.is_ascii_hexdigit());
        assert!(!c.is_ascii_lowercase());
    }
}

#[test]
fn commit_id_known_value() {
    let id = CommitId::from_hex("01ABCD").unwrap();
    assert_eq!(id.to_hex(), "01ABCD");
    let lower = CommitId::from_hex("01abcd").unwrap();
    assert_eq!(lower.to_hex(), "01ABCD");
    assert_eq!(id, lower);
}

#[test]
fn commit_id_rejects_malformed() {
    assert!(matches!(
        CommitId::from_hex("zzzzzz"),
        Err(Error::CommitParseFailed(CommitParseFailedReason::CommitIdParseFailed))
    ));
    assert!(matches!(
        CommitId::from_hex("AB"),
        Err(Error::CommitParseFailed(CommitParseFailedReason::CommitIdParseFailed))
    ));
    assert!(matches!(
        CommitId::from_hex("01ABCDE"),
        Err(Error::CommitParseFailed(CommitParseFailedReason::CommitIdParseFailed))
    ));
    assert!(matches!(
        CommitId::from_hex(""),
        Err(Error::CommitParseFailed(CommitParseFailedReason::CommitIdParseFailed))
    ));
}

#[test]
fn operation_tokens() {
    assert_eq!(FileChangeOperation::Insertion.to_string(), "INS");
    assert_eq!(FileChangeOperation::Deletion.to_string(), "DEL");
    assert_eq!(
        FileChangeOperation::from_str("INS").unwrap(),
        FileChangeOperation::Insertion
    );
    assert_eq!(
        FileChangeOperation::from_str("DEL").unwrap(),
        FileChangeOperation::Deletion
    );
    assert!(matches!(
        FileChangeOperation::from_str("MOV"),
        Err(Error::CommitParseFailed(CommitParseFailedReason::FileChangeDataMalformed))
    ));
}

#[test]
fn file_change_encode_decode() {
    let change = FileChange {
        file_path: "a.txt".to_string(),
        range: 0..5,
        operation: FileChangeOperation::Insertion,
        text: Some("hello".to_string()),
    };
    let encoded = change.to_string();
    assert_eq!(encoded, "a.txt|0..5|INS\nhello");
    let decoded = FileChange::from_str(&encoded).unwrap();
    assert_eq!(decoded.file_path, "a.txt");
    assert_eq!(decoded.range, 0..5);
    assert_eq!(decoded.operation, FileChangeOperation::Insertion);
    assert_eq!(decoded.text, Some("hello".to_string()));
}

#[test]
fn file_change_deletion_encode_decode() {
    let change = FileChange {
        file_path: "b.txt".to_string(),
        range: 3..9,
        operation: FileChangeOperation::Deletion,
        text: None,
    };
    let encoded = change.to_string();
    assert_eq!(encoded, "b.txt|3..9|DEL");
    let decoded = FileChange::from_str(&encoded).unwrap();
    assert_eq!(decoded.file_path, "b.txt");
    assert_eq!(decoded.range, 3..9);
    assert_eq!(decoded.operation, FileChangeOperation::Deletion);
    assert_eq!(decoded.text, None);
}

#[test]
fn file_change_rejects_malformed() {
    assert!(matches!(
        FileChange::from_str(""),
        Err(Error::CommitParseFailed(CommitParseFailedReason::FileChangeDataNotFound))
    ));
    assert!(matches!(
        FileChange::from_str("a.txt|0..5"),
        Err(Error::CommitParseFailed(CommitParseFailedReason::FileChangeDataMalformed))
    ));
    assert!(matches!(
        FileChange::from_str("a.txt|x..5|INS"),
        Err(Error::CommitParseFailed(CommitParseFailedReason::FileChangeDataMalformed))
    ));
    assert!(matches!(
        FileChange::from_str("a.txt|0..5|MOV"),
        Err(Error::CommitParseFailed(CommitParseFailedReason::FileChangeDataMalformed))
    ));
    assert!(matches!(
        FileChange::from_str("a.txt|5..2|DEL"),
        Err(Error::CommitParseFailed(CommitParseFailedReason::FileChangeDataMalformed))
    ));
    assert!(matches!(
        FileChange::from_str("a.txt|0..5..9|DEL"),
        Err(Error::CommitParseFailed(CommitParseFailedReason::FileChangeDataMalformed))
    ));
}

#[test]
fn file_changes_round_trip() {
    let changes = FileChanges::new(vec![
        FileChange {
            file_path: "a.txt".to_string(),
            range: 0..5,
            operation: FileChangeOperation::Insertion,
            text: Some("hello\nworld".to_string()),
        },
        FileChange {
            file_path: "b.txt".to_string(),
            range: 2..4,
            operation: FileChangeOperation::Deletion,
            text: None,
        },
    ]);
    let encoded = changes.to_string();
    let decoded = FileChanges::from_str(&encoded).unwrap();
    let items = decoded.items();
    assert_eq!(items.len(), 2);
    assert_eq!(items[0].file_path, "a.txt");
    assert_eq!(items[0].text, Some("hello\nworld".to_string()));
    assert_eq!(items[1].file_path, "b.txt");
    assert_eq!(items[1].operation, FileChangeOperation::Deletion);
}

#[test]
fn file_change_insertion_without_body_has_empty_text() {
    let decoded = FileChange::from_str("a.txt|0..5|INS").unwrap();
    assert_eq!(decoded.text, Some(String::new()));
}

#[test]
fn file_change_rejects_oversized_range_number() {
    let text = "a.txt|0..99999999999999999999999999999999|DEL";
    assert!(matches!(
        FileChange::from_str(text),
        Err(Error::CommitParseFailed(CommitParseFailedReason::FileChangeDataMalformed))
    ));
}

#[test]
fn file_changes_block_uses_reserved_separator() {
    let changes = FileChanges::new(vec![
        FileChange {
            file_path: "a.txt".to_string(),
            range: 0..5,
            operation: FileChangeOperation::Insertion,
            text: Some("hello".to_string()),
        },
        FileChange {
            file_path: "b.txt".to_string(),
            range: 2..4,
            operation: FileChangeOperation::Deletion,
            text: None,
        },
    ]);
    assert_eq!(
        changes.to_string(),
        "a.txt|0..5|INS\nhello\nEND_FURSION_CHANGEb.txt|2..4|DEL"
    );
}

#[test]
fn file_changes_empty_string_fails() {
    assert!(matches!(
        FileChanges::from_str(""),
        Err(Error::CommitParseFailed(CommitParseFailedReason::FileChangeDataNotFound))
    ));
}

#[test]
fn commit_round_trip() {
    let changes = FileChanges::new(vec![FileChange {
        file_path: "src/lib.rs".to_string(),
        range: 10..20,
        operation: FileChangeOperation::Insertion,
        text: Some("fn answer() {}".to_string()),
    }]);
    let commit = Commit::new("add answer", changes);
    let encoded = commit.to_string();
    let decoded = Commit::from_str(&encoded).unwrap();
    assert_eq!(decoded.message, commit.message);
    assert_eq!(decoded.id, commit.id);
    let got = decoded.changes().items();
    let want = commit.changes().items();
    assert_eq!(got.len(), want.len());
    assert_eq!(got[0].file_path, want[0].file_path);
    assert_eq!(got[0].range, want[0].range);
    assert_eq!(got[0].operation, want[0].operation);
    assert_eq!(got[0].text, want[0].text);
}

#[test]
fn commit_from_parts_keeps_id() {
    let id = CommitId::from_hex("0F10FF").unwrap();
    let commit = Commit::from_parts("kept".to_string(), id.clone(), FileChanges::default());
    assert_eq!(commit.id, id);
    assert_eq!(commit.message, "kept");
    assert!(commit.changes().is_empty());
}

#[test]
fn commit_rejects_bad_id() {
    let text = "NOTHEX|msg\na.txt|0..5|DEL";
    assert!(matches!(
        Commit::from_str(text),
        Err(Error::CommitParseFailed(CommitParseFailedReason::CommitIdParseFailed))
    ));
}

#[test]
fn commit_rejects_missing_message_field() {
    let text = "01ABCD\na.txt|0..5|DEL";
    assert!(matches!(
        Commit::from_str(text),
        Err(Error::CommitParseFailed(CommitParseFailedReason::FileChangeDataMalformed))
    ));
}
