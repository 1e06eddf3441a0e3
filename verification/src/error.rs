use vstd::prelude::*;

verus! {

/// Specification-level image of every failure the compiler can report.
/// String payloads appear as their character sequences so that contracts can
/// speak about them without constructing executable strings.
pub ghost enum ErrSpec {
    Hue { found: int },
    Saturation { found: int },
    Lightness { found: int },
    HexFormat { found: Seq<char> },
    Mix { found: int },
    InvalidBackground { background: Seq<char> },
    MissingValue,
    InvalidColor { color: Seq<char> },
    MissingColor { color: Seq<char> },
    MissingHue { hue: Seq<char> },
    MissingHueSection { hue: Seq<char> },
    InvalidHighlight { highlight: Seq<char> },
    UnknownStyleOption { option: Seq<char> },
    FileNotFound { path: Seq<char> },
}

/// A hue, saturation or lightness argument lay outside its valid interval.
/// The offending value is reported in millionths of a unit (micro-units).
#[derive(Debug, Clone, Copy, PartialEq, Eq, Structural)]
pub enum HslColorError {
    Hue { found: i64 },
    Saturation { found: i64 },
    Lightness { found: i64 },
}

impl View for HslColorError {
    type V = ErrSpec;

    open spec fn view(&self) -> ErrSpec {
        match self {
            HslColorError::Hue { found } => ErrSpec::Hue { found: *found as int },
            HslColorError::Saturation { found } => ErrSpec::Saturation { found: *found as int },
            HslColorError::Lightness { found } => ErrSpec::Lightness { found: *found as int },
        }
    }
}

/// A malformed hexadecimal literal, or a mix weight outside `[0, 1]`
/// (the weight is reported in micro-units).
#[derive(Debug, PartialEq)]
#[allow(inconsistent_fields)]
pub enum RgbColorError {
    Format { found: String },
    Mix { found: i64 },
}

impl View for RgbColorError {
    type V = ErrSpec;

    open spec fn view(&self) -> ErrSpec {
        match self {
            RgbColorError::Format { found } => ErrSpec::HexFormat { found: found@ },
            RgbColorError::Mix { found } => ErrSpec::Mix { found: *found as int },
        }
    }
}

/// A failure while resolving the palette, the highlights or the theme header.
#[derive(Debug, PartialEq)]
pub enum ThemeError {
    InvalidBackground { background: String },
    MissingValue,
    InvalidColor { color: String },
    MissingColor { color: String },
    MissingHue { hue: String },
    MissingHueSection { hue: String },
    InvalidHighlight { highlight: String },
    UnknownStyleOption { option: String },
}

impl View for ThemeError {
    type V = ErrSpec;

    open spec fn view(&self) -> ErrSpec {
        match self {
            ThemeError::InvalidBackground { background } => ErrSpec::InvalidBackground {
                background: background@,
            },
            ThemeError::MissingValue => ErrSpec::MissingValue,
            ThemeError::InvalidColor { color } => ErrSpec::InvalidColor { color: color@ },
            ThemeError::MissingColor { color } => ErrSpec::MissingColor { color: color@ },
            ThemeError::MissingHue { hue } => ErrSpec::MissingHue { hue: hue@ },
            ThemeError::MissingHueSection { hue } => ErrSpec::MissingHueSection { hue: hue@ },
            ThemeError::InvalidHighlight { highlight } => ErrSpec::InvalidHighlight {
                highlight: highlight@,
            },
            ThemeError::UnknownStyleOption { option } => ErrSpec::UnknownStyleOption {
                option: option@,
            },
        }
    }
}

/// The input description could not be found; raised by the surrounding
/// command-line layer, never by the compiler itself.
#[derive(Debug, PartialEq)]
pub enum FileError {
    FileNotFound { path: String },
}

impl View for FileError {
    type V = ErrSpec;

    open spec fn view(&self) -> ErrSpec {
        match self {
            FileError::FileNotFound { path } => ErrSpec::FileNotFound { path: path@ },
        }
    }
}

/// Any failure of a whole theme compilation.
#[derive(Debug, PartialEq)]
pub enum CompileError {
    Hsl(HslColorError),
    Rgb(RgbColorError),
    Theme(ThemeError),
}

impl View for CompileError {
    type V = ErrSpec;

    open spec fn view(&self) -> ErrSpec {
        match self {
            CompileError::Hsl(e) => e@,
            CompileError::Rgb(e) => e@,
            CompileError::Theme(e) => e@,
        }
    }
}

} // verus!
