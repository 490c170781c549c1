//! Errors of the audio edge: decoding files and opening the output device.
use vstd::prelude::*;
use crate::text::{chars_of, string_of};

verus! {

/// Why a decode failed (the backend's error text kept as a string).
#[derive(Debug, Clone, PartialEq, Eq)]
pub enum DecodeError {
    /// The file could not be opened.
    Open(String),
    /// No decodable audio track in the container.
    NoTrack,
    /// The track is missing the sample rate or channel layout.
    MissingParams,
    /// Probing or decoding failed.
    Decode(String),
    /// The resampler failed to construct or run.
    Resample(String),
}

/// Why the output stream could not start.
#[derive(Debug, Clone, PartialEq, Eq)]
pub enum AudioError {
    NoDevice,
    UnsupportedFormat(String),
    Backend(String),
}

fn prefixed(prefix: &str, s: &String) -> (r: String)
    ensures
        r@ == prefix@ + s@,
{
    let mut out = chars_of(prefix);
    let mut tail = chars_of(s.as_str());
    out.append(&mut tail);
    string_of(out.as_slice())
}

impl DecodeError {
    /// The text of a decode error.
    pub open spec fn text(&self) -> Seq<char> {
        match self {
            DecodeError::Open(s) => "cannot open audio file: "@ + s@,
            DecodeError::NoTrack => "no decodable audio track in file"@,
            DecodeError::MissingParams => "track is missing sample rate or channels"@,
            DecodeError::Decode(s) => "decode error: "@ + s@,
            DecodeError::Resample(s) => "resample error: "@ + s@,
        }
    }

    /// The error as text, for the user.
    pub fn message(&self) -> (r: String)
        ensures
            r@ == self.text(),
    {
        match self {
            DecodeError::Open(s) => prefixed("cannot open audio file: ", s),
            DecodeError::NoTrack => "no decodable audio track in file".to_owned(),
            DecodeError::MissingParams => "track is missing sample rate or channels".to_owned(),
            DecodeError::Decode(s) => prefixed("decode error: ", s),
            DecodeError::Resample(s) => prefixed("resample error: ", s),
        }
    }
}

impl AudioError {
    /// The text of an output error.
    pub open spec fn text(&self) -> Seq<char> {
        match self {
            AudioError::NoDevice => "no default output device"@,
            AudioError::UnsupportedFormat(s) => "unsupported sample format: "@ + s@,
            AudioError::Backend(s) => "audio backend error: "@ + s@,
        }
    }

    /// The error as text, for the user.
    pub fn message(&self) -> (r: String)
        ensures
            r@ == self.text(),
    {
        match self {
            AudioError::NoDevice => "no default output device".to_owned(),
            AudioError::UnsupportedFormat(s) => prefixed("unsupported sample format: ", s),
            AudioError::Backend(s) => prefixed("audio backend error: ", s),
        }
    }
}

} // verus!
