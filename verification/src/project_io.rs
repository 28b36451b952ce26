//! Native Freecut project file persistence.
//!
//! Project files are explicit JSON documents. This module decides how a
//! document is to be read from its `version` field, migrates documents of
//! earlier versions (whole user units) to milli-units, and words the errors.
//! Reading and writing files, and turning JSON into typed documents, happen
//! around it.

use vstd::prelude::*;

use crate::dim::{decimal_string, decimal_text, MILLI_PER_UNIT};
use crate::domain::{
    CutPiece, CutSettings, LayoutKind, LinearKerf, PatternDirection, PieceId, Project, StockPiece,
    Unit,
};
use crate::optimizer::OptimizerEffort;

verus! {

pub const PROJECT_FILE_VERSION: u32 = 3;

pub const PROJECT_FILE_EXTENSION: &'static str = "freecut.json";

#[verifier::external_type_specification]
#[verifier::external_body]
pub struct ExJsonValue(serde_json::Value);

#[verifier::external_type_specification]
#[verifier::external_body]
pub struct ExJsonError(serde_json::Error);

#[verifier::external_type_specification]
#[verifier::external_body]
pub struct ExIoError(std::io::Error);

/// A project file: its format version, the project and the optimizer effort.
#[derive(Clone, Debug, PartialEq)]
pub struct ProjectDocument {
    pub version: u32,
    pub project: Project,
    pub optimizer_effort: OptimizerEffort,
}

impl ProjectDocument {
    /// A document of the current version.
    pub fn new(project: Project, optimizer_effort: OptimizerEffort) -> (res: Self)
        ensures
            res.version == PROJECT_FILE_VERSION,
            res.project == project,
            res.optimizer_effort == optimizer_effort,
    {
        Self { version: PROJECT_FILE_VERSION, project, optimizer_effort }
    }
}

/// Why a project file could not be read or written.
#[derive(Debug)]
pub enum ProjectIoError {
    Io(std::io::Error),
    Json(serde_json::Error),
    UnsupportedVersion(u32),
}

/// The message for a version that this library does not read.
pub open spec fn unsupported_version_text(version: u32) -> Seq<char> {
    "Projektdatei-Version "@ + decimal_text(version as nat) + " wird nicht unterstützt"@
}

/// `Display` of `std::io::Error`. Nothing is stated of the text it gives.
#[verifier::external_body]
fn io_error_text(error: &std::io::Error) -> String {
    format!("{error}")
}

/// `Display` of `serde_json::Error`. Nothing is stated of the text it gives.
#[verifier::external_body]
fn json_error_text(error: &serde_json::Error) -> String {
    format!("{error}")
}

impl ProjectIoError {
    /// The message shown for this error.
    pub fn message(&self) -> (res: String)
        ensures
            match self {
                ProjectIoError::Io(_) => exists|detail: Seq<char>|
                    res@ == "Dateifehler: "@ + detail,
                ProjectIoError::Json(_) => exists|detail: Seq<char>|
                    res@ == "Projektdatei ist kein gültiges JSON: "@ + detail,
                ProjectIoError::UnsupportedVersion(version) => res@ == unsupported_version_text(
                    *version,
                ),
            },
    {
        match self {
            ProjectIoError::Io(error) => {
                let mut text = String::from_str("Dateifehler: ");
                let detail = io_error_text(error);
                text.append(detail.as_str());
                text
            },
            ProjectIoError::Json(error) => {
                let mut text = String::from_str("Projektdatei ist kein gültiges JSON: ");
                let detail = json_error_text(error);
                text.append(detail.as_str());
                text
            },
            ProjectIoError::UnsupportedVersion(version) => {
                let mut text = String::from_str("Projektdatei-Version ");
                text.append(decimal_string(*version).as_str());
                text.append(" wird nicht unterstützt");
                text
            },
        }
    }
}

impl From<std::io::Error> for ProjectIoError {
    fn from(error: std::io::Error) -> (res: Self) {
        ProjectIoError::Io(error)
    }
}

impl vstd::std_specs::convert::FromSpecImpl<std::io::Error> for ProjectIoError {
    open spec fn obeys_from_spec() -> bool {
        true
    }

    open spec fn from_spec(v: std::io::Error) -> Self {
        ProjectIoError::Io(v)
    }
}

impl From<serde_json::Error> for ProjectIoError {
    fn from(error: serde_json::Error) -> (res: Self) {
        ProjectIoError::Json(error)
    }
}

impl vstd::std_specs::convert::FromSpecImpl<serde_json::Error> for ProjectIoError {
    open spec fn obeys_from_spec() -> bool {
        true
    }

    open spec fn from_spec(v: serde_json::Error) -> Self {
        ProjectIoError::Json(v)
    }
}

// ---------------------------------------------------------------------------
// Versions
/// The versions this library reads.
pub open spec fn is_supported_version(version: u32) -> bool {
    version == 1 || version == 2 || version == 3
}

/// How the body of a document is to be read.
#[derive(Clone, Copy, Debug, PartialEq, Eq, Structural)]
pub enum DocumentShape {
    /// Versions before the current one: dimensions in whole user units.
    Legacy,
    /// The current version: dimensions in milli-units.
    Current,
}

/// The version of a document from its `version` field read as an unsigned
/// integer: missing, or too large for `u32`, counts as 1.
pub open spec fn version_from_field(field: Option<u64>) -> u32 {
    match field {
        Some(v) => if v <= u32::MAX {
            v as u32
        } else {
            1
        },
        None => 1,
    }
}

/// The shape a version is read in, or the version itself where it is not read.
pub open spec fn shape_for_version(version: u32) -> Result<DocumentShape, u32> {
    if !is_supported_version(version) {
        Err(version)
    } else if version < PROJECT_FILE_VERSION {
        Ok(DocumentShape::Legacy)
    } else {
        Ok(DocumentShape::Current)
    }
}

/// The outcome `res` is what `expected` says: the same shape, or the refusal
/// of the same version.
pub open spec fn outcome_is<T>(
    res: Result<(T, DocumentShape), ProjectIoError>,
    expected: Result<DocumentShape, u32>,
) -> bool {
    match (res, expected) {
        (Ok((_, s)), Ok(t)) => s == t,
        (Err(ProjectIoError::UnsupportedVersion(v)), Err(w)) => v == w,
        _ => false,
    }
}

/// The version of a document from its `version` field.
pub fn document_version(field: Option<u64>) -> (res: u32)
    ensures
        res == version_from_field(field),
        field matches Some(v) ==> res == (if v <= u32::MAX {
            v as u32
        } else {
            1u32
        }),
        field is None ==> res == 1,
{
    match field {
        Some(v) => if v <= u32::MAX as u64 {
            v as u32
        } else {
            1
        },
        None => 1,
    }
}

/// How to read a document of `version`, or `UnsupportedVersion`.
pub fn check_version(version: u32) -> (res: Result<DocumentShape, ProjectIoError>)
    ensures
        match (res, shape_for_version(version)) {
            (Ok(s), Ok(t)) => s == t,
            (Err(ProjectIoError::UnsupportedVersion(v)), Err(w)) => v == w,
            _ => false,
        },
        res is Ok <==> (version == 1 || version == 2 || version == 3),
        res matches Ok(shape) ==> (shape == DocumentShape::Legacy <==> version < 3),
        res matches Err(e) ==> e == ProjectIoError::UnsupportedVersion(version),
{
    if !(version == 1 || version == 2 || version == 3) {
        return Err(ProjectIoError::UnsupportedVersion(version));
    }
    if version < PROJECT_FILE_VERSION {
        Ok(DocumentShape::Legacy)
    } else {
        Ok(DocumentShape::Current)
    }
}

/// A name for the texts that `serde_json::from_str` accepts as JSON.
pub uninterp spec fn json_accepts(source: Seq<char>) -> bool;

/// A name for the top-level member `key` of a JSON text, read by
/// `serde_json::Value::as_u64`: `None` where the text is not an object, has no
/// such member, or its value is not an unsigned integer that fits `u64`.
pub uninterp spec fn json_member_u64(source: Seq<char>, key: Seq<char>) -> Option<u64>;

/// `serde_json::from_str::<serde_json::Value>`, with the parsed value's
/// member `key` read out as `Value::get(key)` and `Value::as_u64` give it.
///
/// Claimed: parsing succeeds exactly on the texts that `json_accepts` names,
/// and the member read is what `json_member_u64` names; both depend on the
/// text and the key alone. Nothing is stated of the rest of the value or of
/// the error.
#[verifier::external_body]
fn parse_json(source: &str, key: &str) -> (res: Result<
    (serde_json::Value, Option<u64>),
    serde_json::Error,
>)
    ensures
        res is Ok <==> json_accepts(source@),
        res matches Ok((_, member)) ==> member == json_member_u64(source@, key@),
{
    let value: serde_json::Value = serde_json::from_str(source)?;
    let member = value.get(key).and_then(serde_json::Value::as_u64);
    Ok((value, member))
}

/// Parses a project file as JSON and decides from its `version` field how its
/// body is to be read: as a legacy document, as a current one, or not at all.
///
/// The JSON value is handed back for reading the body.
pub fn read_project_source(source: &str) -> (res: Result<
    (serde_json::Value, DocumentShape),
    ProjectIoError,
>)
    ensures
        !(res matches Err(ProjectIoError::Io(_))),
        (res matches Err(ProjectIoError::Json(_))) <==> !json_accepts(source@),
        json_accepts(source@) ==> outcome_is(
            res,
            shape_for_version(version_from_field(json_member_u64(source@, "version"@))),
        ),
{
    let (value, field) = match parse_json(source, "version") {
        Ok(parsed) => parsed,
        Err(error) => {
            return Err(ProjectIoError::Json(error));
        },
    };
    let version = document_version(field);
    match check_version(version) {
        Ok(shape) => Ok((value, shape)),
        Err(error) => Err(error),
    }
}

/// Documents of the current version, those that `ProjectDocument::new`
/// and `into_current` make among them, are read back as current documents;
/// every earlier supported version is read as a legacy one.
pub proof fn law_versions_read_back()
    ensures
        shape_for_version(PROJECT_FILE_VERSION) == Ok::<DocumentShape, u32>(DocumentShape::Current),
        forall|v: u32|
            is_supported_version(v) && v < PROJECT_FILE_VERSION ==> #[trigger] shape_for_version(v)
                == Ok::<DocumentShape, u32>(DocumentShape::Legacy),
        forall|v: u32|
            !is_supported_version(v) ==> #[trigger] shape_for_version(v) == Err::<DocumentShape, u32>(
                v,
            ),
{
}

// ---------------------------------------------------------------------------
// Migration of version 1 and 2 documents
/// A version 1 or 2 document: dimension fields are in whole user units.
pub struct LegacyProjectDocument {
    pub version: u32,
    pub project: LegacyProject,
    pub optimizer_effort: OptimizerEffort,
}

pub struct LegacyProject {
    pub name: String,
    pub stock_pieces: Vec<LegacyStockPiece>,
    pub cut_pieces: Vec<LegacyCutPiece>,
    pub settings: LegacyCutSettings,
}

#[derive(Clone, Copy)]
pub struct LegacyStockPiece {
    pub id: PieceId,
    pub width: u32,
    pub length: u32,
    pub quantity: Option<u32>,
    pub pattern: PatternDirection,
}

pub struct LegacyCutPiece {
    pub id: PieceId,
    pub label: String,
    pub width: u32,
    pub length: u32,
    pub quantity: u32,
    pub pattern: PatternDirection,
    pub can_rotate: bool,
}

#[derive(Clone, Copy)]
pub struct LegacyCutSettings {
    pub unit: Unit,
    pub kerf_width: u32,
    pub linear_kerf: Option<LegacyLinearKerf>,
    pub layout: LayoutKind,
}

#[derive(Clone, Copy)]
pub struct LegacyLinearKerf {
    pub extra: u32,
    pub reference: u32,
}

/// Whole user units in milli-units, saturating at `u32::MAX`.
pub open spec fn units_to_milli(units: u32) -> u32 {
    if units * MILLI_PER_UNIT > u32::MAX {
        u32::MAX
    } else {
        (units * MILLI_PER_UNIT) as u32
    }
}

pub open spec fn migrated_stock(old: LegacyStockPiece) -> StockPiece {
    StockPiece {
        id: old.id,
        width: units_to_milli(old.width),
        length: units_to_milli(old.length),
        quantity: old.quantity,
        pattern: old.pattern,
    }
}

/// `new` is `old` with its dimensions in milli-units.
pub open spec fn is_migrated_cut(old: LegacyCutPiece, new: CutPiece) -> bool {
    &&& new.id == old.id
    &&& new.label@ == old.label@
    &&& new.width == units_to_milli(old.width)
    &&& new.length == units_to_milli(old.length)
    &&& new.quantity == old.quantity
    &&& new.pattern == old.pattern
    &&& new.can_rotate == old.can_rotate
}

pub open spec fn migrated_settings(old: LegacyCutSettings) -> CutSettings {
    CutSettings {
        unit: old.unit,
        kerf_width: units_to_milli(old.kerf_width),
        linear_kerf: match old.linear_kerf {
            Some(lk) => Some(
                LinearKerf {
                    extra: units_to_milli(lk.extra),
                    reference: units_to_milli(lk.reference),
                },
            ),
            None => None,
        },
        layout: old.layout,
    }
}

/// Whole user units in milli-units, saturating.
fn to_milli(units: u32) -> (res: u32)
    ensures
        res == units_to_milli(units),
{
    match units.checked_mul(MILLI_PER_UNIT) {
        Some(v) => v,
        None => u32::MAX,
    }
}

impl LegacyProjectDocument {
    /// The same document at the current version, dimensions scaled to
    /// milli-units (saturating).
    pub fn into_current(self) -> (res: ProjectDocument)
        ensures
            res.version == PROJECT_FILE_VERSION,
            res.optimizer_effort == self.optimizer_effort,
            res.project.name@ == self.project.name@,
            res.project.stock_pieces@ == self.project.stock_pieces@.map_values(
                |s: LegacyStockPiece| migrated_stock(s),
            ),
            res.project.cut_pieces.len() == self.project.cut_pieces.len(),
            forall|i: int|
                0 <= i < self.project.cut_pieces.len() ==> is_migrated_cut(
                    #[trigger] self.project.cut_pieces@[i],
                    res.project.cut_pieces@[i],
                ),
            res.project.settings == migrated_settings(self.project.settings),
            // each piece keeps what is not a dimension, and its dimensions grow
            // a thousandfold unless that passes u32::MAX
            forall|i: int|
                0 <= i < self.project.cut_pieces.len() ==> {
                    let old = #[trigger] self.project.cut_pieces@[i];
                    let new = res.project.cut_pieces@[i];
                    &&& new.can_rotate == old.can_rotate
                    &&& new.id == old.id
                    &&& new.label@ == old.label@
                    &&& new.quantity == old.quantity
                    &&& new.pattern == old.pattern
                    &&& new.width as int == if old.width * 1000 <= u32::MAX {
                        old.width * 1000
                    } else {
                        u32::MAX as int
                    }
                    &&& new.length as int == if old.length * 1000 <= u32::MAX {
                        old.length * 1000
                    } else {
                        u32::MAX as int
                    }
                },
            res.project.stock_pieces.len() == self.project.stock_pieces.len(),
            forall|i: int|
                0 <= i < self.project.stock_pieces.len() ==> {
                    let old = #[trigger] self.project.stock_pieces@[i];
                    let new = res.project.stock_pieces@[i];
                    &&& new.id == old.id
                    &&& new.quantity == old.quantity
                    &&& new.pattern == old.pattern
                    &&& new.width as int == if old.width * 1000 <= u32::MAX {
                        old.width * 1000
                    } else {
                        u32::MAX as int
                    }
                    &&& new.length as int == if old.length * 1000 <= u32::MAX {
                        old.length * 1000
                    } else {
                        u32::MAX as int
                    }
                },
            res.project.settings.unit == self.project.settings.unit,
            res.project.settings.layout == self.project.settings.layout,
            res.project.settings.kerf_width as int == if self.project.settings.kerf_width * 1000
                <= u32::MAX {
                self.project.settings.kerf_width * 1000
            } else {
                u32::MAX as int
            },
            res.project.settings.linear_kerf is Some == self.project.settings.linear_kerf is Some,
            self.project.settings.linear_kerf matches Some(old) ==> {
                let new = res.project.settings.linear_kerf->Some_0;
                &&& new.extra as int == if old.extra * 1000 <= u32::MAX {
                    old.extra * 1000
                } else {
                    u32::MAX as int
                }
                &&& new.reference as int == if old.reference * 1000 <= u32::MAX {
                    old.reference * 1000
                } else {
                    u32::MAX as int
                }
            },
    {
        let old = self.project;
        let mut stock_pieces: Vec<StockPiece> = Vec::new();
        let mut i: usize = 0;
        while i < old.stock_pieces.len()
            invariant
                i <= old.stock_pieces.len(),
                stock_pieces@ == old.stock_pieces@.take(i as int).map_values(
                    |s: LegacyStockPiece| migrated_stock(s),
                ),
            decreases old.stock_pieces.len() - i,
        {
            let stock = old.stock_pieces[i];
            stock_pieces.push(
                StockPiece {
                    id: stock.id,
                    width: to_milli(stock.width),
                    length: to_milli(stock.length),
                    quantity: stock.quantity,
                    pattern: stock.pattern,
                },
            );
            i = i + 1;
            assert(stock_pieces@ =~= old.stock_pieces@.take(i as int).map_values(
                |s: LegacyStockPiece| migrated_stock(s),
            ));
        }
        assert(old.stock_pieces@.take(old.stock_pieces.len() as int) =~= old.stock_pieces@);
        let mut cut_pieces: Vec<CutPiece> = Vec::new();
        let mut j: usize = 0;
        while j < old.cut_pieces.len()
            invariant
                j <= old.cut_pieces.len(),
                cut_pieces.len() == j,
                forall|k: int|
                    0 <= k < j ==> is_migrated_cut(
                        #[trigger] old.cut_pieces@[k],
                        cut_pieces@[k],
                    ),
            decreases old.cut_pieces.len() - j,
        {
            let cut = &old.cut_pieces[j];
            cut_pieces.push(
                CutPiece {
                    id: cut.id,
                    label: cut.label.clone(),
                    width: to_milli(cut.width),
                    length: to_milli(cut.length),
                    quantity: cut.quantity,
                    pattern: cut.pattern,
                    can_rotate: cut.can_rotate,
                },
            );
            j = j + 1;
        }
        let linear_kerf = match old.settings.linear_kerf {
            Some(lk) => Some(
                LinearKerf { extra: to_milli(lk.extra), reference: to_milli(lk.reference) },
            ),
            None => None,
        };
        let settings = CutSettings {
            unit: old.settings.unit,
            kerf_width: to_milli(old.settings.kerf_width),
            linear_kerf,
            layout: old.settings.layout,
        };
        let project = Project { name: old.name, stock_pieces, cut_pieces, settings };
        ProjectDocument {
            version: PROJECT_FILE_VERSION,
            project,
            optimizer_effort: self.optimizer_effort,
        }
    }
}

} // verus!
