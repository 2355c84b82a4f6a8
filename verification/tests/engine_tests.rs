//! Engine-level behavior over directory snapshots: resolution priority,
//! deduplication, statistics, cleanup, conversion, merging, and the bulk
//! validator.

use sportball_sidecar::codec::{BinarySerializer, JsonSerializer, SidecarFormat,
    SidecarSerializer};
use sportball_sidecar::fsmodel::{FsEntry, FsSnapshot};
use sportball_sidecar::manager::SidecarManager;
use sportball_sidecar::types::OperationType;
use sportball_sidecar::validator::{FileRead, ParallelProcessor};
use sportball_sidecar::value::{JsonValue, NumberLit};

fn s(x: &str) -> String {
    x.to_string()
}

fn file(path: &str, content: Option<Vec<u8>>) -> FsEntry {
    FsEntry {
        path: s(path),
        is_file: true,
        is_symlink: false,
        symlink_target: None,
        target_exists: false,
        content,
    }
}

fn symlink(path: &str, target: &str, target_exists: bool) -> FsEntry {
    FsEntry {
        path: s(path),
        is_file: false,
        is_symlink: true,
        symlink_target: Some(s(target)),
        target_exists,
        content: None,
    }
}

fn payload(op_token: &str) -> JsonValue {
    JsonValue::Object(vec![
        (
            s("sidecar_info"),
            JsonValue::Object(vec![(s("operation_type"), JsonValue::Str(s(op_token)))]),
        ),
        (s("count"), JsonValue::Int(2)),
    ])
}

fn bin_bytes(v: &JsonValue) -> Vec<u8> {
    BinarySerializer.serialize(v).unwrap()
}

fn json_bytes(v: &JsonValue) -> Vec<u8> {
    JsonSerializer.serialize(v).unwrap()
}

#[test]
fn test_format_priority() {
    let m = SidecarManager::new();
    let p = payload("face_detection");
    let snap = FsSnapshot {
        entries: vec![
            file("d/img.jpg", None),
            file("d/img.json", Some(json_bytes(&p))),
            file("d/img.bin", Some(bin_bytes(&p))),
        ],
    };
    let info = m.find_sidecar_for_image(&snap, "d/img.jpg").unwrap().unwrap();
    assert_eq!(info.sidecar_path, "d/img.bin");
    assert!(info.is_valid);
    assert_eq!(info.operation, OperationType::FaceDetection);
    assert_eq!(info.image_path, "d/img.jpg");
    assert_eq!(info.id.len(), 36);
    assert!(!info.created_at.is_empty());
}

#[test]
fn test_resolve_missing_image() {
    let m = SidecarManager::new();
    let snap = FsSnapshot { entries: vec![] };
    assert!(m.find_sidecar_for_image(&snap, "d/none.jpg").unwrap().is_none());
}

#[test]
fn test_resolve_invalid_payload_still_returned() {
    let m = SidecarManager::new();
    let snap = FsSnapshot {
        entries: vec![
            file("d/img.jpg", None),
            file("d/img.json", Some(b"{broken".to_vec())),
        ],
    };
    let info = m.find_sidecar_for_image(&snap, "d/img.jpg").unwrap().unwrap();
    assert_eq!(info.sidecar_path, "d/img.json");
    assert!(!info.is_valid);
    assert_eq!(info.data_size, 0);
    assert_eq!(info.operation, OperationType::Unknown);
}

#[test]
fn test_symlink_dedup() {
    let m = SidecarManager::new();
    let p = payload("ball_detection");
    let snap = FsSnapshot {
        entries: vec![
            symlink("d/a.jpg", "d/real.jpg", true),
            symlink("d/b.jpg", "d/real.jpg", true),
            file("d/real.jpg", None),
            file("d/real.bin", Some(bin_bytes(&p))),
        ],
    };
    let all = m.find_all_sidecars(&snap, "d").unwrap();
    assert_eq!(all.len(), 1);
    assert_eq!(all[0].sidecar_path, "d/real.bin");
}

#[test]
fn test_sidecar_attributed_to_target_not_alias() {
    // the target image comes first in walk order, so the record carries
    // the target's attribution and no symlink data
    let m = SidecarManager::new();
    let p = payload("quality_assessment");
    let snap = FsSnapshot {
        entries: vec![
            file("d/actual.jpg", None),
            file("d/actual.json", Some(json_bytes(&p))),
            symlink("d/symlink.jpg", "d/actual.jpg", true),
        ],
    };
    let all = m.find_all_sidecars(&snap, "d").unwrap();
    assert_eq!(all.len(), 1);
    assert_eq!(all[0].operation, OperationType::QualityAssessment);
    assert_eq!(all[0].image_path, "d/actual.jpg");
    assert!(all[0].symlink_info.is_none());
}

#[test]
fn test_symlink_info_and_broken() {
    let m = SidecarManager::new();
    let p = payload("face_detection");
    let snap = FsSnapshot {
        entries: vec![
            symlink("d/link.jpg", "d/gone.jpg", false),
            file("d/gone.bin", Some(bin_bytes(&p))),
        ],
    };
    let info = m.find_sidecar_for_image(&snap, "d/link.jpg").unwrap().unwrap();
    assert_eq!(info.sidecar_path, "d/gone.bin");
    let si = info.symlink_info.unwrap();
    assert_eq!(si.symlink_path, "d/link.jpg");
    assert_eq!(si.target_path, "d/gone.jpg");
    assert!(si.is_symlink);
    assert!(si.broken);
}

#[test]
fn test_coverage_statistics() {
    let m = SidecarManager::new();
    let mut entries = Vec::new();
    for i in 0..5 {
        let p = payload("face_detection");
        entries.push(file(&format!("d/test_{}.jpg", i), None));
        entries.push(file(&format!("d/test_{}.bin", i), Some(bin_bytes(&p))));
    }
    let snap = FsSnapshot { entries };
    let st = m.get_statistics(&snap, "d").unwrap();
    assert_eq!(st.total_images, 5);
    assert_eq!(st.total_sidecars, 5);
    assert_eq!(st.coverage_percentage, 10000);
    assert_eq!(st.symlink_count, 0);
    assert_eq!(st.broken_symlinks, 0);
    assert_eq!(st.operation_counts.len(), 1);
    assert_eq!(st.operation_counts[0].0, OperationType::FaceDetection);
    assert_eq!(st.operation_counts[0].1, 5);
    assert_eq!(st.success_rate_percentages[0].1, 10000);
    assert!(st.avg_processing_times.is_empty());
}

#[test]
fn test_statistics_empty_directory() {
    let m = SidecarManager::new();
    let snap = FsSnapshot { entries: vec![] };
    let st = m.get_statistics(&snap, "d").unwrap();
    assert_eq!(st.total_images, 0);
    assert_eq!(st.total_sidecars, 0);
    assert_eq!(st.coverage_percentage, 0);
    assert!(st.operation_counts.is_empty());
}

#[test]
fn test_statistics_mixed_validity() {
    let m = SidecarManager::new();
    let good = payload("face_detection");
    let snap = FsSnapshot {
        entries: vec![
            file("d/a.jpg", None),
            file("d/a.bin", Some(bin_bytes(&good))),
            file("d/b.jpg", None),
            // an undecodable payload: still resolved, but invalid
            file("d/b.bin", Some(b"garbage".to_vec())),
        ],
    };
    let st = m.get_statistics(&snap, "d").unwrap();
    assert_eq!(st.total_images, 2);
    assert_eq!(st.total_sidecars, 2);
    // one record valid under face_detection, one invalid under unknown
    let face = st
        .operation_counts
        .iter()
        .find(|(op, _)| *op == OperationType::FaceDetection)
        .unwrap();
    assert_eq!(face.1, 1);
    let unknown = st
        .operation_counts
        .iter()
        .find(|(op, _)| *op == OperationType::Unknown)
        .unwrap();
    assert_eq!(unknown.1, 1);
    let face_rate = st
        .success_rate_percentages
        .iter()
        .find(|(op, _)| *op == OperationType::FaceDetection)
        .unwrap();
    assert_eq!(face_rate.1, 10000);
    let unknown_rate = st
        .success_rate_percentages
        .iter()
        .find(|(op, _)| *op == OperationType::Unknown)
        .unwrap();
    assert_eq!(unknown_rate.1, 0);
}

#[test]
fn test_cleanup_orphans() {
    let m = SidecarManager::new();
    let snap = FsSnapshot {
        entries: vec![
            file("d/orphan.json", Some(b"{}".to_vec())),
            file("d/valid.json", Some(b"{}".to_vec())),
            file("d/valid.jpg", None),
        ],
    };
    let plan = m.cleanup_orphaned_sidecars(&snap, "d");
    assert_eq!(plan, vec![s("d/orphan.json")]);
}

#[test]
fn test_cleanup_pattern_suffix() {
    let m = SidecarManager::new();
    // the stem token is what follows the last underscore
    let snap = FsSnapshot {
        entries: vec![
            file("d/run3_photo.json", Some(b"{}".to_vec())),
            file("d/photo.png", None),
            file("d/run3_missing.json", Some(b"{}".to_vec())),
        ],
    };
    let plan = m.cleanup_orphaned_sidecars(&snap, "d");
    assert_eq!(plan, vec![s("d/run3_missing.json")]);
}

#[test]
fn test_pattern_pass_attaches_suffix_sidecars() {
    let m = SidecarManager::new();
    let p = payload("object_detection");
    let snap = FsSnapshot {
        entries: vec![
            file("d/run3_photo.json", Some(json_bytes(&p))),
            file("d/photo.png", None),
        ],
    };
    let all = m.find_all_sidecars(&snap, "d").unwrap();
    assert_eq!(all.len(), 1);
    assert_eq!(all[0].sidecar_path, "d/run3_photo.json");
    assert_eq!(all[0].image_path, "d/photo.png");
    assert_eq!(all[0].operation, OperationType::ObjectDetection);
}

#[test]
fn test_format_conversion() {
    let m = SidecarManager::new();
    let p = payload("face_detection");
    let snap = FsSnapshot {
        entries: vec![
            file("d/t.jpg", None),
            file("d/t.json", Some(json_bytes(&p))),
        ],
    };
    let jobs = m.convert_directory_format(&snap, SidecarFormat::Binary);
    assert_eq!(jobs.len(), 1);
    assert_eq!(jobs[0].source_path, "d/t.json");
    assert_eq!(jobs[0].target_path, "d/t.bin");
    assert_eq!(jobs[0].bytes, bin_bytes(&p));
    // apply the plan: write the target, delete the source
    let snap2 = FsSnapshot {
        entries: vec![
            file("d/t.jpg", None),
            file("d/t.bin", Some(jobs[0].bytes.clone())),
        ],
    };
    let again = m.convert_directory_format(&snap2, SidecarFormat::Binary);
    assert_eq!(again.len(), 0);
}

#[test]
fn test_convert_single_noop_when_at_target() {
    let m = SidecarManager::new();
    let p = payload("face_detection");
    let snap = FsSnapshot {
        entries: vec![file("d/t.bin", Some(bin_bytes(&p)))],
    };
    let (path, write) = m
        .convert_sidecar_format(&snap, "d/t.bin", SidecarFormat::Binary)
        .unwrap();
    assert_eq!(path, "d/t.bin");
    assert!(write.is_none());
}

#[test]
fn test_create_sidecar_with_format() {
    let m = SidecarManager::new();
    let snap = FsSnapshot {
        entries: vec![file("d/img.jpg", None)],
    };
    let data = JsonValue::Object(vec![(s("faces"), JsonValue::Array(vec![]))]);
    let (info, bytes) = m
        .create_sidecar_with_format(&snap, "d/img.jpg", OperationType::FaceDetection, data,
            SidecarFormat::Json)
        .unwrap();
    assert_eq!(info.sidecar_path, "d/img.json");
    assert!(info.is_valid);
    assert_eq!(info.data_size as usize, bytes.len());
    let env = JsonSerializer.deserialize(&bytes).unwrap();
    let si = env.get("sidecar_info").unwrap();
    match si.get("operation_type").unwrap() {
        JsonValue::Str(t) => assert_eq!(t, "face_detection"),
        other => panic!("unexpected member {:?}", other),
    }
    assert!(env.get("data").is_some());
}

#[test]
fn test_merge_accumulation() {
    let m = SidecarManager::new();
    let snap = FsSnapshot {
        entries: vec![file("d/i.jpg", None)],
    };
    let d1 = || JsonValue::Object(vec![(s("success"), JsonValue::Bool(true))]);
    let (info1, bytes1) = m
        .save_data(&snap, "d/i.jpg", OperationType::FaceDetection, d1())
        .unwrap();
    assert_eq!(info1.sidecar_path, "d/i.bin");
    let snap2 = FsSnapshot {
        entries: vec![file("d/i.jpg", None), file("d/i.bin", Some(bytes1))],
    };
    let d2 = || JsonValue::Object(vec![(s("count"), JsonValue::Int(4))]);
    let (_, bytes2) = m
        .save_data(&snap2, "d/i.jpg", OperationType::ObjectDetection, d2())
        .unwrap();
    let merged = BinarySerializer.deserialize(&bytes2).unwrap();
    assert_eq!(merged.get("face_detection"), Some(&d1()));
    assert_eq!(merged.get("object_detection"), Some(&d2()));
    assert!(merged.get("sidecar_info").is_some());
}

#[test]
fn test_merge_keeps_fractional_payloads() {
    // a sidecar holding a confidence score is merged onto, not discarded
    let m = SidecarManager::new();
    let existing = JsonValue::Object(vec![(
        s("face_detection"),
        JsonValue::Object(vec![(
            s("confidence"),
            JsonValue::Num(NumberLit::new(b"0.95".to_vec()).unwrap()),
        )]),
    )]);
    let snap = FsSnapshot {
        entries: vec![
            file("d/i.jpg", None),
            file("d/i.bin", Some(bin_bytes(&existing))),
        ],
    };
    let d2 = JsonValue::Object(vec![(s("count"), JsonValue::Int(4))]);
    let (_, bytes) = m
        .save_data(&snap, "d/i.jpg", OperationType::ObjectDetection, d2)
        .unwrap();
    let merged = BinarySerializer.deserialize(&bytes).unwrap();
    let face = merged.get("face_detection").unwrap();
    assert_eq!(
        face.get("confidence"),
        Some(&JsonValue::Num(NumberLit::new(b"0.95".to_vec()).unwrap()))
    );
    assert!(merged.get("object_detection").is_some());
}

#[test]
fn test_fail_open_batch() {
    let proc = ParallelProcessor::new(4);
    let mut files = Vec::new();
    for i in 0..19 {
        let p = payload("game_detection");
        let bytes = json_bytes(&p);
        let size = bytes.len() as u64;
        files.push((format!("d/f{}.json", i), FileRead::Content(size, bytes), 5));
    }
    // one corrupt (truncated) file among the valid ones
    files.push((s("d/bad.json"), FileRead::Content(3, b"{\"t".to_vec()), 5));
    let results = proc.validate_files_parallel(files);
    assert_eq!(results.len(), 20);
    let valid = results.iter().filter(|r| r.is_valid).count();
    let invalid: Vec<_> = results.iter().filter(|r| !r.is_valid).collect();
    assert_eq!(valid, 19);
    assert_eq!(invalid.len(), 1);
    assert_eq!(invalid[0].file_path, "d/bad.json");
    assert!(invalid[0].error.is_some());
}

#[test]
fn test_validate_missing_and_unreadable() {
    let proc = ParallelProcessor::new(1);
    let results = proc.validate_files_parallel(vec![
        (s("d/x.json"), FileRead::Missing, 1),
        (s("d/y.json"), FileRead::ReadFailed(s("denied")), 2),
        (s("d/z.json"), FileRead::MetaFailed(s("odd")), 3),
    ]);
    assert_eq!(results.len(), 3);
    assert_eq!(results[0].error.as_deref(), Some("File does not exist"));
    assert_eq!(results[1].error.as_deref(), Some("File read error: denied"));
    assert_eq!(results[2].error.as_deref(), Some("File metadata error: odd"));
    assert_eq!(results[1].processing_time, 2);
}

#[test]
fn test_validator_extraction() {
    let proc = ParallelProcessor::new(1);
    let v = JsonValue::Object(vec![
        (
            s("data"),
            JsonValue::Object(vec![
                (
                    s("faces"),
                    JsonValue::Array(vec![JsonValue::Null, JsonValue::Null, JsonValue::Null]),
                ),
                (s("tool_name"), JsonValue::Str(s("detector-9"))),
            ]),
        ),
        (
            s("sidecar_info"),
            JsonValue::Object(vec![(s("operation_type"), JsonValue::Str(s("yolov8")))]),
        ),
    ]);
    let bytes = json_bytes(&v);
    let size = bytes.len() as u64;
    let results = proc.validate_files_parallel(vec![(
        s("d/v.json"),
        FileRead::Content(size, bytes),
        7,
    )]);
    assert_eq!(results.len(), 1);
    let r = &results[0];
    assert!(r.is_valid);
    assert_eq!(r.file_size, size);
    assert_eq!(r.detection_count, 3);
    assert_eq!(r.tool_name.as_deref(), Some("detector-9"));
    assert_eq!(r.operation_type, Some(OperationType::Yolov8));
}

#[test]
fn test_filter_fail_open() {
    let proc = ParallelProcessor::new(1);
    let with_op = payload("face_detection");
    let without_op = payload("game_detection");
    let kept = proc.filter_by_operation_type(
        vec![
            (s("d/has.json"), Some(with_op)),
            (s("d/hasnot.json"), Some(without_op)),
            (s("d/unreadable.json"), None),
        ],
        "face_detection",
    );
    assert_eq!(kept, vec![s("d/has.json"), s("d/unreadable.json")]);
}

#[test]
fn test_validation_statistics_summary() {
    let proc = ParallelProcessor::new(1);
    let p = payload("unified");
    let bytes = json_bytes(&p);
    let size = bytes.len() as u64;
    let results = proc.validate_files_parallel(vec![
        (s("d/ok.json"), FileRead::Content(size, bytes), 10),
        (s("d/bad.json"), FileRead::Missing, 30),
    ]);
    let stats = proc.get_validation_statistics(&results);
    assert_eq!(stats.total_files, 2);
    assert_eq!(stats.valid_files, 1);
    assert_eq!(stats.invalid_files, 1);
    assert_eq!(stats.valid_percentage, 5000);
    assert_eq!(stats.total_processing_time, 40);
    assert_eq!(stats.avg_processing_time, 20);
    assert_eq!(stats.total_file_size, size as u128);
    assert_eq!(stats.avg_file_size, size / 2);
}

#[test]
fn test_per_operation_validation_rows() {
    let proc = ParallelProcessor::new(1);
    let good = payload("yolov8");
    let gb = json_bytes(&good);
    let gsize = gb.len() as u64;
    let results = proc.validate_files_parallel(vec![
        (s("d/a.json"), FileRead::Content(gsize, gb.clone()), 10),
        (s("d/b.json"), FileRead::Content(gsize, gb), 30),
        (s("d/c.json"), FileRead::Content(2, b"{\"".to_vec()), 8),
    ]);
    let rows = proc.get_operation_statistics(&results);
    // the corrupt file reports no operation, so one row remains
    assert_eq!(rows.len(), 1);
    assert_eq!(rows[0].operation, OperationType::Yolov8);
    assert_eq!(rows[0].count, 2);
    assert_eq!(rows[0].valid_count, 2);
    assert_eq!(rows[0].success_rate, 10000);
    assert_eq!(rows[0].avg_processing_time, 20);
    assert_eq!(rows[0].avg_file_size, gsize);
}

#[test]
fn test_operation_type_tokens() {
    assert_eq!(OperationType::FaceDetection.as_str(), "face_detection");
    assert_eq!(OperationType::from_str("quality_assessment"), OperationType::QualityAssessment);
    assert_eq!(OperationType::from_str("anything else"), OperationType::Unknown);
    for op in [
        OperationType::FaceDetection,
        OperationType::ObjectDetection,
        OperationType::BallDetection,
        OperationType::QualityAssessment,
        OperationType::GameDetection,
        OperationType::Yolov8,
        OperationType::Unified,
        OperationType::Unknown,
    ] {
        assert_eq!(OperationType::from_str(op.as_str()), op);
    }
}

#[test]
fn test_default_format_configuration() {
    let mut m = SidecarManager::new();
    assert_eq!(m.get_default_format(), SidecarFormat::Binary);
    m.set_default_format(SidecarFormat::Json);
    assert_eq!(m.get_default_format(), SidecarFormat::Json);
    let snap = FsSnapshot {
        entries: vec![file("d/img.jpg", None)],
    };
    let (info, _) = m
        .create_sidecar(&snap, "d/img.jpg", OperationType::Unified, JsonValue::Null)
        .unwrap();
    assert_eq!(info.sidecar_path, "d/img.json");
}

#[test]
fn test_format_statistics() {
    let m = SidecarManager::new();
    let snap = FsSnapshot {
        entries: vec![
            file("d/a.json", None),
            file("d/b.bin", None),
            file("d/c.bin", None),
            file("d/d.rkyv", None),
            file("d/not_a_sidecar.txt", None),
        ],
    };
    let counts = m.get_format_statistics(&snap);
    assert_eq!(counts[0], (SidecarFormat::Json, 1));
    assert_eq!(counts[1], (SidecarFormat::Binary, 2));
    assert_eq!(counts[2], (SidecarFormat::Rkyv, 1));
}
