use idar::models::{
    count_duplicates, DeduplicationMetadata, DeduplicationReport, DuplicatesGroup, ImageInfo,
};
use idar::serialization::{
    hash_failure, hash_from_base64, hash_to_base64, GroupEntry, ImageEntry, ReportDocument,
};
use serde_json::Value;

fn record(path: &str, hash: &[u8]) -> ImageInfo {
    ImageInfo { path: String::from(path), hash: hash.to_vec() }
}

fn text_field(object: &Value, key: &str) -> String {
    String::from(object.get(key).unwrap().as_str().unwrap())
}

fn json_of(document: &ReportDocument) -> Value {
    let mut metadata = serde_json::Map::new();
    metadata.insert(
        String::from("directory_path"),
        Value::from(document.metadata.directory_path.clone()),
    );
    metadata.insert(String::from("threshold"), Value::from(document.metadata.threshold));
    let mut groups = Vec::new();
    for group in &document.groups {
        let mut items = Vec::new();
        for entry in &group.items {
            let mut item = serde_json::Map::new();
            item.insert(String::from("path"), Value::from(entry.path.clone()));
            item.insert(String::from("hash"), Value::from(entry.hash.clone()));
            items.push(Value::Object(item));
        }
        let mut object = serde_json::Map::new();
        object.insert(String::from("items"), Value::Array(items));
        groups.push(Value::Object(object));
    }
    let mut root = serde_json::Map::new();
    root.insert(String::from("metadata"), Value::Object(metadata));
    root.insert(String::from("groups"), Value::Array(groups));
    if let Some(count) = document.total_duplicates {
        root.insert(String::from("total_duplicates"), Value::from(count));
    }
    Value::Object(root)
}

fn document_of(json: &Value) -> ReportDocument {
    let metadata = json.get("metadata").unwrap();
    let mut groups = Vec::new();
    for group in json.get("groups").unwrap().as_array().unwrap() {
        let mut items = Vec::new();
        for item in group.get("items").unwrap().as_array().unwrap() {
            items.push(ImageEntry {
                path: text_field(item, "path"),
                hash: text_field(item, "hash"),
            });
        }
        groups.push(GroupEntry { items });
    }
    ReportDocument {
        metadata: DeduplicationMetadata {
            directory_path: text_field(metadata, "directory_path"),
            threshold: metadata.get("threshold").unwrap().as_u64().unwrap() as u32,
        },
        groups,
        total_duplicates: json
            .get("total_duplicates")
            .map(|count| count.as_u64().unwrap() as usize),
    }
}

#[test]
fn test_serialize_deserialize_dedupe_report() {
    let hash = hash_from_base64("DAIDBwMHAf8").unwrap();
    let image = ImageInfo { path: String::from("/path/to/image.jpg"), hash };

    let report = DeduplicationReport {
        metadata: DeduplicationMetadata {
            directory_path: String::from("/path/to/directory"),
            threshold: 10,
        },
        groups: vec![DuplicatesGroup { items: vec![image.clone()] }],
        total_duplicates: 1,
    };

    // Serialize and then deserialize the report
    let serialized = serde_json::to_string(&json_of(&report.to_document().unwrap())).unwrap();
    let parsed: Value = serde_json::from_str(&serialized).unwrap();
    let deserialized = DeduplicationReport::from_document(&document_of(&parsed)).unwrap();
    assert_eq!(report, deserialized);
}

#[test]
fn the_stored_form_is_the_documented_one() {
    let report = DeduplicationReport::new(
        String::from("/path/to/directory"),
        vec![DuplicatesGroup {
            items: vec![
                record("/path/to/image.jpg", &[0x0C, 0x02, 0x03, 0x07, 0x03, 0x07, 0x01, 0xFF]),
                record("/path/to/copy.jpg", &[0x0C, 0x02, 0x03, 0x07, 0x03, 0x07, 0x01, 0xFE]),
            ],
        }],
        10,
    );
    let serialized = serde_json::to_string(&json_of(&report.to_document().unwrap())).unwrap();
    assert_eq!(
        serialized,
        "{\"metadata\":{\"directory_path\":\"/path/to/directory\",\"threshold\":10},\
         \"groups\":[{\"items\":[{\"path\":\"/path/to/image.jpg\",\"hash\":\"DAIDBwMHAf8\"},\
         {\"path\":\"/path/to/copy.jpg\",\"hash\":\"DAIDBwMHAf4\"}]}],\"total_duplicates\":1}"
    );
}

#[test]
fn a_report_comes_back_from_its_document() {
    let report = DeduplicationReport::new(
        String::from("photos/2024"),
        vec![
            DuplicatesGroup {
                items: vec![
                    record("a.png", &[1]),
                    record("b.png", &[1, 2]),
                    record("c.png", &[3, 4, 5]),
                ],
            },
            DuplicatesGroup {
                items: vec![record("d.png", &[0xFF; 32]), record("e.png", &[0; 32])],
            },
        ],
        7,
    );
    let document = report.to_document().unwrap();
    assert_eq!(document.metadata, report.metadata);
    assert_eq!(document.total_duplicates, Some(3));
    assert_eq!(document.groups.len(), 2);
    assert_eq!(
        document.groups[0].items[0],
        ImageEntry { path: String::from("a.png"), hash: String::from("AQ") }
    );
    assert_eq!(document.groups[0].items[1].hash, "AQI");
    assert_eq!(document.groups[0].items[2].hash, "AwQF");
    assert_eq!(DeduplicationReport::from_document(&document), Ok(report));
}

#[test]
fn an_empty_report_comes_back_from_its_document() {
    let report = DeduplicationReport::new(String::from(""), Vec::new(), 0);
    let document = report.to_document().unwrap();
    assert!(document.groups.is_empty());
    assert_eq!(DeduplicationReport::from_document(&document), Ok(report));
}

#[test]
fn the_stored_count_is_taken_as_it_is() {
    let document = ReportDocument {
        metadata: DeduplicationMetadata { directory_path: String::from("d"), threshold: 3 },
        groups: vec![GroupEntry {
            items: vec![
                ImageEntry { path: String::from("x"), hash: String::from("AQ") },
                ImageEntry { path: String::from("y"), hash: String::from("Ag") },
            ],
        }],
        total_duplicates: Some(40),
    };
    let report = DeduplicationReport::from_document(&document).unwrap();
    assert_eq!(report.total_duplicates, 40);
    assert_eq!(
        report.groups,
        vec![DuplicatesGroup { items: vec![record("x", &[1]), record("y", &[2])] }]
    );
}

#[test]
fn a_document_without_a_count_is_loaded_with_the_count_of_its_groups() {
    let text = "{\"metadata\":{\"directory_path\":\"/photos\",\"threshold\":10},\
                \"groups\":[{\"items\":[{\"path\":\"/photos/a.png\",\"hash\":\"AQ\"},\
                {\"path\":\"/photos/b.png\",\"hash\":\"AQ\"},\
                {\"path\":\"/photos/c.png\",\"hash\":\"Aw\"}]},\
                {\"items\":[{\"path\":\"/photos/d.png\",\"hash\":\"/w\"},\
                {\"path\":\"/photos/e.png\",\"hash\":\"/w\"}]}]}";
    let parsed: Value = serde_json::from_str(text).unwrap();
    let document = document_of(&parsed);
    assert_eq!(document.total_duplicates, None);
    let report = DeduplicationReport::from_document(&document).unwrap();
    assert_eq!(report.total_duplicates, 3);
    assert_eq!(report.metadata.directory_path, "/photos");
    assert_eq!(report.metadata.threshold, 10);
    assert_eq!(
        report.groups,
        vec![
            DuplicatesGroup {
                items: vec![
                    record("/photos/a.png", &[1]),
                    record("/photos/b.png", &[1]),
                    record("/photos/c.png", &[3]),
                ],
            },
            DuplicatesGroup {
                items: vec![record("/photos/d.png", &[0xFF]), record("/photos/e.png", &[0xFF])],
            },
        ]
    );
}

#[test]
fn a_document_without_a_count_and_without_groups_counts_nothing() {
    let document = ReportDocument {
        metadata: DeduplicationMetadata { directory_path: String::from("d"), threshold: 3 },
        groups: Vec::new(),
        total_duplicates: None,
    };
    let report = DeduplicationReport::from_document(&document).unwrap();
    assert_eq!(report.total_duplicates, 0);
    assert!(report.groups.is_empty());
}

#[test]
fn a_document_whose_count_cannot_be_derived_is_rejected() {
    let document = ReportDocument {
        metadata: DeduplicationMetadata { directory_path: String::from("d"), threshold: 3 },
        groups: vec![GroupEntry { items: Vec::new() }],
        total_duplicates: None,
    };
    assert_eq!(
        DeduplicationReport::from_document(&document),
        Err(idar::errors::AppError::InvalidDeduplicationReport(String::from(
            "the number of duplicates cannot be derived from the groups"
        )))
    );
    let stored = ReportDocument {
        metadata: DeduplicationMetadata { directory_path: String::from("d"), threshold: 3 },
        groups: vec![GroupEntry { items: Vec::new() }],
        total_duplicates: Some(0),
    };
    assert!(DeduplicationReport::from_document(&stored).is_ok());
}

#[test]
fn the_number_of_duplicates_is_derived_where_it_can_be() {
    let pair = DuplicatesGroup { items: vec![record("a", &[1]), record("b", &[1])] };
    let single = DuplicatesGroup { items: vec![record("c", &[1])] };
    let empty = DuplicatesGroup { items: Vec::new() };
    assert_eq!(count_duplicates(&vec![]), Some(0));
    assert_eq!(count_duplicates(&vec![pair.clone()]), Some(1));
    assert_eq!(count_duplicates(&vec![pair.clone(), single.clone()]), Some(1));
    assert_eq!(count_duplicates(&vec![pair.clone(), empty.clone()]), Some(0));
    assert_eq!(count_duplicates(&vec![empty.clone()]), None);
    assert_eq!(count_duplicates(&vec![single, empty.clone(), empty]), None);
}

#[test]
fn a_document_with_a_malformed_hash_is_rejected() {
    let document = ReportDocument {
        metadata: DeduplicationMetadata { directory_path: String::from("d"), threshold: 3 },
        groups: vec![GroupEntry {
            items: vec![
                ImageEntry { path: String::from("x"), hash: String::from("AQ") },
                ImageEntry { path: String::from("y"), hash: String::from("??") },
            ],
        }],
        total_duplicates: Some(1),
    };
    match DeduplicationReport::from_document(&document) {
        Err(idar::errors::AppError::InvalidDeduplicationReport(message)) => {
            assert!(message.starts_with("Failed to parse hash from base64: "));
        }
        other => panic!("unexpected {:?}", other),
    }
}

#[test]
fn an_empty_hash_does_not_come_back() {
    let report = DeduplicationReport::new(
        String::from("d"),
        vec![DuplicatesGroup { items: vec![record("x", &[]), record("y", &[1])] }],
        3,
    );
    let document = report.to_document().unwrap();
    assert_eq!(document.groups[0].items[0].hash, "");
    assert!(DeduplicationReport::from_document(&document).is_err());
}

#[test]
fn a_hash_that_is_too_long_cannot_be_stored() {
    let report = DeduplicationReport::new(
        String::from("d"),
        vec![DuplicatesGroup {
            items: vec![
                record("x", &[1]),
                ImageInfo {
                    path: String::from("y"),
                    hash: vec![0u8; idar::hashing::MAX_HASH_BYTES + 1],
                },
            ],
        }],
        3,
    );
    assert_eq!(
        report.to_document(),
        Err(idar::errors::AppError::SerdeError(String::from("hash too long to encode")))
    );
}

#[test]
fn hashes_are_written_as_unpadded_base64() {
    let first = vec![0x0C, 0x02, 0x03, 0x07, 0x03, 0x07, 0x01, 0xFF];
    let second = vec![0xF3, 0xF2, 0x70, 0x56, 0xD6, 0xCE, 0x57, 0x2E];
    assert_eq!(hash_to_base64(&first), "DAIDBwMHAf8");
    assert_eq!(hash_to_base64(&second), "8/JwVtbOVy4");
    assert_eq!(hash_to_base64(&vec![0xFB, 0xEF, 0xBE]), "++++");
    assert_eq!(hash_to_base64(&vec![0]), "AA");
    assert_eq!(hash_to_base64(&vec![]), "");
}

#[test]
fn hashes_are_read_from_unpadded_base64() {
    let first = vec![0x0C, 0x02, 0x03, 0x07, 0x03, 0x07, 0x01, 0xFF];
    let second = vec![0xF3, 0xF2, 0x70, 0x56, 0xD6, 0xCE, 0x57, 0x2E];
    assert_eq!(hash_from_base64("DAIDBwMHAf8"), Ok(first));
    assert_eq!(hash_from_base64("8/JwVtbOVy4"), Ok(second));
    assert_eq!(hash_from_base64("AA"), Ok(vec![0]));
}

#[test]
fn text_that_is_no_hash_is_rejected() {
    for text in ["", "??", "DAIDBwMHAf8=", "A", "not base64!", "AB"] {
        match hash_from_base64(text) {
            Err(idar::errors::AppError::InvalidDeduplicationReport(message)) => {
                assert!(message.starts_with("Failed to parse hash from base64: "), "{}", message);
                assert!(message.len() > "Failed to parse hash from base64: ".len());
            }
            other => panic!("unexpected {:?} for {:?}", other, text),
        }
    }
}

#[test]
fn the_failure_to_read_a_hash_carries_its_reason() {
    assert_eq!(
        hash_failure("BytesEmpty"),
        idar::errors::AppError::InvalidDeduplicationReport(String::from(
            "Failed to parse hash from base64: BytesEmpty"
        ))
    );
    assert_eq!(hash_from_base64(""), Err(hash_failure("BytesEmpty")));
}

#[test]
fn text_that_is_too_long_is_rejected() {
    let text = "A".repeat(idar::serialization::MAX_ENCODED_LEN + 1);
    assert_eq!(
        hash_from_base64(&text),
        Err(idar::errors::AppError::InvalidDeduplicationReport(String::from(
            "Failed to parse hash from base64: text too long"
        )))
    );
}

#[test]
fn a_built_report_counts_all_members_but_one_for_each_group() {
    let report = DeduplicationReport::new(
        String::from("dir"),
        vec![
            DuplicatesGroup { items: vec![record("a", &[1]), record("b", &[1])] },
            DuplicatesGroup {
                items: vec![record("c", &[2]), record("d", &[2]), record("e", &[2])],
            },
        ],
        10,
    );
    assert_eq!(report.total_duplicates, 3);
    assert_eq!(report.metadata.directory_path, "dir");
    assert_eq!(report.metadata.threshold, 10);
    assert_eq!(report.groups.len(), 2);

    let empty = DeduplicationReport::new(String::from("dir"), Vec::new(), 10);
    assert_eq!(empty.total_duplicates, 0);
}

#[test]
fn the_summary_names_directory_threshold_groups_and_duplicates() {
    let report = DeduplicationReport::new(
        String::from("/home/me/pictures"),
        vec![
            DuplicatesGroup { items: vec![record("a", &[1]), record("b", &[1])] },
            DuplicatesGroup {
                items: vec![record("c", &[2]), record("d", &[2]), record("e", &[2])],
            },
        ],
        10,
    );
    assert_eq!(
        report.render(),
        "Deduplication Report:\n\
         Directory path: /home/me/pictures\n\
         Similarity threshold: 10\n\
         Number of duplicate groups: 2\n\
         Total number of duplicates: 3\n"
    );
}

#[test]
fn a_copy_of_a_report_equals_it() {
    let report = DeduplicationReport::new(
        String::from("dir"),
        vec![DuplicatesGroup { items: vec![record("a", &[1, 2]), record("b", &[3])] }],
        4,
    );
    assert_eq!(report.clone(), report);
    assert_eq!(report.groups[0].clone(), report.groups[0]);
    assert_eq!(report.groups[0].items[1].clone(), record("b", &[3]));
    assert_eq!(report.metadata.clone(), report.metadata);
}
