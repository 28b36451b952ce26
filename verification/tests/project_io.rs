use freecut::domain::{
    CutSettings, LayoutKind, LinearKerf, PatternDirection, PieceId, Project, StockPiece, Unit,
};
use freecut::optimizer::OptimizerEffort;
use freecut::project_io::{
    check_version, document_version, read_project_source, DocumentShape, LegacyCutPiece,
    LegacyCutSettings, LegacyLinearKerf, LegacyProject, LegacyProjectDocument, LegacyStockPiece,
    ProjectDocument, ProjectIoError, PROJECT_FILE_EXTENSION, PROJECT_FILE_VERSION,
};
use serde_json::Value;

fn field<'a>(value: &'a Value, key: &str) -> &'a Value {
    value.get(key).expect("field present")
}

fn number(value: &Value, key: &str) -> u32 {
    u32::try_from(field(value, key).as_u64().expect("number")).expect("fits u32")
}

fn text(value: &Value, key: &str) -> String {
    field(value, key).as_str().expect("string").to_string()
}

fn pattern(value: &Value) -> PatternDirection {
    match field(value, "pattern").as_str().expect("pattern") {
        "None" => PatternDirection::Unrestricted,
        "ParallelToWidth" => PatternDirection::ParallelToWidth,
        "ParallelToLength" => PatternDirection::ParallelToLength,
        other => panic!("unknown pattern {other}"),
    }
}

fn effort(value: &Value) -> OptimizerEffort {
    match field(value, "optimizer_effort").as_str().expect("effort") {
        "Fast" => OptimizerEffort::Fast,
        "Balanced" => OptimizerEffort::Balanced,
        "Thorough" => OptimizerEffort::Thorough,
        other => panic!("unknown effort {other}"),
    }
}

/// Reads a version 1 or 2 document from its JSON value, field by field.
fn legacy_document(value: &Value) -> LegacyProjectDocument {
    let project = field(value, "project");
    let settings = field(project, "settings");
    let stock_pieces = field(project, "stock_pieces")
        .as_array()
        .expect("stock array")
        .iter()
        .map(|stock| LegacyStockPiece {
            id: PieceId(field(stock, "id").as_u64().expect("id")),
            width: number(stock, "width"),
            length: number(stock, "length"),
            quantity: field(stock, "quantity").as_u64().map(|q| q as u32),
            pattern: pattern(stock),
        })
        .collect();
    let cut_pieces = field(project, "cut_pieces")
        .as_array()
        .expect("cut array")
        .iter()
        .map(|cut| LegacyCutPiece {
            id: PieceId(field(cut, "id").as_u64().expect("id")),
            label: text(cut, "label"),
            width: number(cut, "width"),
            length: number(cut, "length"),
            quantity: number(cut, "quantity"),
            pattern: pattern(cut),
            can_rotate: field(cut, "can_rotate").as_bool().expect("bool"),
        })
        .collect();
    let unit = match field(settings, "unit").as_str().expect("unit") {
        "Millimeter" => Unit::Millimeter,
        "Foot" => Unit::Foot,
        other => panic!("unknown unit {other}"),
    };
    let linear_kerf = settings.get("linear_kerf").map(|lk| LegacyLinearKerf {
        extra: number(lk, "extra"),
        reference: number(lk, "reference"),
    });
    LegacyProjectDocument {
        version: number(value, "version"),
        project: LegacyProject {
            name: text(project, "name"),
            stock_pieces,
            cut_pieces,
            settings: LegacyCutSettings {
                unit,
                kerf_width: number(settings, "kerf_width"),
                linear_kerf,
                layout: match field(settings, "layout").as_str().expect("layout") {
                    "Guillotine" => LayoutKind::Guillotine,
                    "Nested" => LayoutKind::Nested,
                    other => panic!("unknown layout {other}"),
                },
            },
        },
        optimizer_effort: effort(value),
    }
}

#[test]
fn rejects_unsupported_project_file_version() {
    let source = r#"{
  "version": 999,
  "project": {
    "name": "too new",
    "stock_pieces": [],
    "cut_pieces": [],
    "settings": { "unit": "Millimeter", "kerf_width": 0, "layout": "Guillotine" }
  },
  "optimizer_effort": "Fast"
}"#;

    let error = read_project_source(source).expect_err("version should fail");

    assert_eq!(
        error.message(),
        "Projektdatei-Version 999 wird nicht unterstützt"
    );
}

#[test]
fn loads_legacy_v1_project_without_linear_kerf_field() {
    let source = r#"{
  "version": 1,
  "project": {
    "name": "legacy",
    "stock_pieces": [],
    "cut_pieces": [],
    "settings": { "unit": "Millimeter", "kerf_width": 2, "layout": "Guillotine" }
  },
  "optimizer_effort": "Balanced"
}"#;

    let (value, shape) = read_project_source(source).expect("v1 project should load");
    assert_eq!(shape, DocumentShape::Legacy);
    let loaded = legacy_document(&value).into_current();

    assert_eq!(loaded.version, PROJECT_FILE_VERSION);
    assert_eq!(loaded.project.settings.kerf_width, 2_000);
    assert_eq!(loaded.project.settings.linear_kerf, None);
}

#[test]
fn migrates_legacy_v2_project_dimensions_to_milli() {
    let source = r#"{
  "version": 2,
  "project": {
    "name": "v2 file",
    "stock_pieces": [
      {
        "id": 1,
        "width": 2440,
        "length": 1220,
        "quantity": 2,
        "pattern": "None"
      }
    ],
    "cut_pieces": [
      {
        "id": 2,
        "label": "side",
        "width": 700,
        "length": 500,
        "quantity": 4,
        "pattern": "ParallelToWidth",
        "can_rotate": false
      }
    ],
    "settings": {
      "unit": "Millimeter",
      "kerf_width": 3,
      "linear_kerf": { "extra": 1, "reference": 1000 },
      "layout": "Guillotine"
    }
  },
  "optimizer_effort": "Thorough"
}"#;

    let (value, shape) = read_project_source(source).expect("v2 should migrate");
    assert_eq!(shape, DocumentShape::Legacy);
    let loaded = legacy_document(&value).into_current();

    assert_eq!(loaded.version, PROJECT_FILE_VERSION);
    assert_eq!(loaded.project.stock_pieces[0].width, 2_440_000);
    assert_eq!(loaded.project.stock_pieces[0].length, 1_220_000);
    assert_eq!(loaded.project.cut_pieces[0].width, 700_000);
    assert_eq!(loaded.project.cut_pieces[0].length, 500_000);
    assert_eq!(loaded.project.settings.kerf_width, 3_000);
    assert_eq!(
        loaded.project.settings.linear_kerf,
        Some(LinearKerf {
            extra: 1_000,
            reference: 1_000_000,
        })
    );
    assert_eq!(loaded.project.cut_pieces[0].label, "side");
    assert_eq!(loaded.project.cut_pieces[0].quantity, 4);
    assert_eq!(
        loaded.project.cut_pieces[0].pattern,
        PatternDirection::ParallelToWidth
    );
    assert_eq!(loaded.project.stock_pieces[0].quantity, Some(2));
    assert_eq!(loaded.optimizer_effort, OptimizerEffort::Thorough);
    assert_eq!(loaded.project.settings.layout, LayoutKind::Guillotine);
    assert_eq!(loaded.project.settings.unit, Unit::Millimeter);
}

#[test]
fn current_version_is_read_as_current() {
    let source = r#"{
  "version": 3,
  "project": {
    "name": "current",
    "stock_pieces": [],
    "cut_pieces": [],
    "settings": { "unit": "Foot", "kerf_width": 1000, "layout": "Guillotine" }
  },
  "optimizer_effort": "Balanced"
}"#;
    let (value, shape) = read_project_source(source).expect("v3 loads");
    assert_eq!(shape, DocumentShape::Current);
    assert_eq!(field(&value, "version").as_u64(), Some(3));
}

#[test]
fn missing_or_oversized_version_counts_as_one() {
    assert_eq!(document_version(None), 1);
    assert_eq!(document_version(Some(2)), 2);
    assert_eq!(document_version(Some(u64::from(u32::MAX) + 1)), 1);
    assert_eq!(document_version(Some(u64::from(u32::MAX))), u32::MAX);

    let (_, shape) =
        read_project_source(r#"{"project": {}, "optimizer_effort": "Fast"}"#).expect("v1");
    assert_eq!(shape, DocumentShape::Legacy);
    let (_, shape) = read_project_source(r#"{"version": "3"}"#).expect("string version is v1");
    assert_eq!(shape, DocumentShape::Legacy);
}

#[test]
fn only_versions_one_to_three_are_read() {
    assert!(matches!(check_version(0), Err(ProjectIoError::UnsupportedVersion(0))));
    assert_eq!(check_version(1).ok(), Some(DocumentShape::Legacy));
    assert_eq!(check_version(2).ok(), Some(DocumentShape::Legacy));
    assert_eq!(check_version(3).ok(), Some(DocumentShape::Current));
    assert!(matches!(check_version(4), Err(ProjectIoError::UnsupportedVersion(4))));
}

#[test]
fn invalid_json_is_a_json_error() {
    let error = read_project_source("{ not json").expect_err("not JSON");
    assert!(matches!(error, ProjectIoError::Json(_)));
    assert!(error
        .message()
        .starts_with("Projektdatei ist kein gültiges JSON: "));
}

#[test]
fn io_errors_are_worded() {
    let error = ProjectIoError::from(std::io::Error::new(std::io::ErrorKind::NotFound, "gone"));
    assert_eq!(error.message(), "Dateifehler: gone");
}

#[test]
fn migration_saturates_and_keeps_everything_else() {
    let legacy = LegacyProjectDocument {
        version: 2,
        project: LegacyProject {
            name: "big".to_string(),
            stock_pieces: vec![
                LegacyStockPiece {
                    id: PieceId(7),
                    width: 4_294_968,
                    length: 4_294_967,
                    quantity: None,
                    pattern: PatternDirection::ParallelToLength,
                },
                LegacyStockPiece {
                    id: PieceId(8),
                    width: 0,
                    length: 1,
                    quantity: Some(3),
                    pattern: PatternDirection::Unrestricted,
                },
            ],
            cut_pieces: Vec::new(),
            settings: LegacyCutSettings {
                unit: Unit::Foot,
                kerf_width: u32::MAX,
                linear_kerf: None,
                layout: LayoutKind::Nested,
            },
        },
        optimizer_effort: OptimizerEffort::Fast,
    };
    let current = legacy.into_current();
    assert_eq!(current.version, 3);
    assert_eq!(current.project.name, "big");
    assert_eq!(current.project.stock_pieces[0].width, u32::MAX);
    assert_eq!(current.project.stock_pieces[0].length, 4_294_967_000);
    assert_eq!(current.project.stock_pieces[0].id, PieceId(7));
    assert_eq!(current.project.stock_pieces[1].width, 0);
    assert_eq!(current.project.stock_pieces[1].length, 1_000);
    assert_eq!(current.project.stock_pieces[1].quantity, Some(3));
    assert_eq!(current.project.settings.kerf_width, u32::MAX);
    assert_eq!(current.project.settings.unit, Unit::Foot);
    assert_eq!(current.project.settings.layout, LayoutKind::Nested);
}

#[test]
fn new_document_has_the_current_version() {
    let project = Project {
        name: "roundtrip".to_string(),
        stock_pieces: vec![StockPiece {
            id: PieceId(1),
            width: 2_440_000,
            length: 1_220_000,
            quantity: Some(2),
            pattern: PatternDirection::ParallelToLength,
        }],
        cut_pieces: Vec::new(),
        settings: CutSettings {
            unit: Unit::Millimeter,
            kerf_width: 3_000,
            linear_kerf: None,
            layout: LayoutKind::Guillotine,
        },
    };
    let document = ProjectDocument::new(project.clone(), OptimizerEffort::Thorough);
    assert_eq!(document.version, PROJECT_FILE_VERSION);
    assert_eq!(document.project, project);
    assert_eq!(document.optimizer_effort, OptimizerEffort::Thorough);
    assert_eq!(PROJECT_FILE_EXTENSION, "freecut.json");
}
