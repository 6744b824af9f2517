use vstd::prelude::*;

verus! {

/// Errors reported by geoq operations.
#[derive(Debug)]
pub enum Error {
    InvalidGeoJSON,
    NotImplemented,
    UnknownCommand,
    UnknownEntityFormat,
    InvalidWkt,
    MissingArgument,
    InvalidNumberFormat(String),
    InputTooLarge,
    IOError,
    JSONParseError,
    InvalidJSONType,
    PolygonRequired,
    IPGeolocationError,
    HTTPError,
    TooManyFeatures,
    PointRequired,
    DistanceFailed,
    InvalidGeohashPoint,
    NoInputGiven,
    ShapefileReaderError(String),
    ProgramError(String),
    InvalidInput(String),
}

} // verus!
