//! Choices of the signal nodes.

use vstd::prelude::*;

verus! {

/// How a Math node combines its inputs A and B.
#[derive(Clone, Copy, Debug, PartialEq, Eq, Structural)]
pub enum MathOp {
    Add,
    Subtract,
    Multiply,
    Divide,
    Min,
    Max,
    /// 1 when A > B, else 0.
    Greater,
    /// 1 when A < B, else 0.
    Less,
}

impl MathOp {
    /// Every variant, in menu order.
    pub const ALL: [MathOp; 8] = [
        MathOp::Add,
        MathOp::Subtract,
        MathOp::Multiply,
        MathOp::Divide,
        MathOp::Min,
        MathOp::Max,
        MathOp::Greater,
        MathOp::Less,
    ];

    /// Name shown in menus.
    pub fn label(self) -> (s: &'static str)
        ensures
            s@ == (match self {
                MathOp::Add => "A + B"@,
                MathOp::Subtract => "A − B"@,
                MathOp::Multiply => "A × B"@,
                MathOp::Divide => "A ÷ B"@,
                MathOp::Min => "smaller"@,
                MathOp::Max => "larger"@,
                MathOp::Greater => "A > B"@,
                MathOp::Less => "A < B"@,
            }),
    {
        match self {
            MathOp::Add => "A + B",
            MathOp::Subtract => "A − B",
            MathOp::Multiply => "A × B",
            MathOp::Divide => "A ÷ B",
            MathOp::Min => "smaller",
            MathOp::Max => "larger",
            MathOp::Greater => "A > B",
            MathOp::Less => "A < B",
        }
    }
}

/// How a Drive node writes its signal into a setting.
#[derive(Clone, Copy, Debug, PartialEq, Eq, Structural)]
pub enum DriveMode {
    /// The setting becomes the signal.
    Replace,
    /// The signal is added to the setting (its own animation stays).
    Add,
    /// The setting is scaled by the signal.
    Multiply,
}

impl DriveMode {
    /// Every variant, in menu order.
    pub const ALL: [DriveMode; 3] = [DriveMode::Replace, DriveMode::Add, DriveMode::Multiply];

    /// Name shown in menus.
    pub fn label(self) -> (s: &'static str)
        ensures
            s@ == (match self {
                DriveMode::Replace => "set to"@,
                DriveMode::Add => "add"@,
                DriveMode::Multiply => "multiply by"@,
            }),
    {
        match self {
            DriveMode::Replace => "set to",
            DriveMode::Add => "add",
            DriveMode::Multiply => "multiply by",
        }
    }
}

impl Default for DriveMode {
    fn default() -> (r: Self)
        ensures
            r == DriveMode::Replace,
    {
        DriveMode::Replace
    }
}

} // verus!
