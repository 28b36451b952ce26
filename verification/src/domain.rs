//! The project model: stock sheets, the pieces to cut from them and the cut
//! settings. All dimensions are in milli-units (see `crate::dim`).

use vstd::prelude::*;

verus! {

/// Identifies a stock or cut piece within a project.
#[derive(Clone, Copy, Debug, PartialEq, Eq, Structural)]
pub struct PieceId(pub u64);

/// The grain direction a piece must keep, if any.
#[derive(Clone, Copy, Debug, PartialEq, Eq, Structural)]
pub enum PatternDirection {
    /// No grain direction to keep (`None` in project files).
    Unrestricted,
    ParallelToWidth,
    ParallelToLength,
}

/// The user unit that dimensions are entered in.
#[derive(Clone, Copy, Debug, PartialEq, Eq, Structural)]
pub enum Unit {
    Millimeter,
    Foot,
}

/// How sheets are divided.
#[derive(Clone, Copy, Debug, PartialEq, Eq, Structural)]
pub enum LayoutKind {
    Guillotine,
    Nested,
}

/// Extra kerf that grows with the length of a cut: `extra` per `reference`.
#[derive(Clone, Copy, Debug, PartialEq, Eq, Structural)]
pub struct LinearKerf {
    pub extra: u32,
    pub reference: u32,
}

/// A stock sheet; `quantity: None` means unlimited.
#[derive(Clone, Copy, Debug, PartialEq, Eq, Structural)]
pub struct StockPiece {
    pub id: PieceId,
    pub width: u32,
    pub length: u32,
    pub quantity: Option<u32>,
    pub pattern: PatternDirection,
}

/// A piece to cut.
#[derive(Clone, Debug, PartialEq, Eq)]
pub struct CutPiece {
    pub id: PieceId,
    pub label: String,
    pub width: u32,
    pub length: u32,
    pub quantity: u32,
    pub pattern: PatternDirection,
    pub can_rotate: bool,
}

/// Settings that apply to every cut of a project.
#[derive(Clone, Copy, Debug, PartialEq, Eq, Structural)]
pub struct CutSettings {
    pub unit: Unit,
    pub kerf_width: u32,
    pub linear_kerf: Option<LinearKerf>,
    pub layout: LayoutKind,
}

/// A cutting project.
#[derive(Clone, Debug, PartialEq, Eq)]
pub struct Project {
    pub name: String,
    pub stock_pieces: Vec<StockPiece>,
    pub cut_pieces: Vec<CutPiece>,
    pub settings: CutSettings,
}

} // verus!
