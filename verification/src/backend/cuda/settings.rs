//! Settings that come in as text from outside of a program.
use vstd::prelude::*;

use super::train_ctx::{EnvNumber, EnvSwitch, TrainEnv};
use crate::text::{parse_usize, parsed_usize, same_chars, same_text, to_chars, trim, trimmed};

verus! {

/// The texts of settings; none where a setting is not there or is no text.
pub struct EnvTexts<'a> {
    pub bucket_profile: Option<&'a str>,
    pub hist_nodes_per_batch: Option<&'a str>,
    pub row_major: Option<&'a str>,
    pub resident_blocks: Option<&'a str>,
    pub hist_streams: Option<&'a str>,
    pub device_quantize: Option<&'a str>,
    pub pinned: Option<&'a str>,
}

/// The text says that something is on.
pub open spec fn says_on(s: Seq<char>) -> bool {
    s == "1"@ || s == "true"@
}

/// The text says that something is off.
pub open spec fn says_off(s: Seq<char>) -> bool {
    s == "0"@ || s == "false"@
}

/// A flag is set only by a text that says so.
pub open spec fn flag(text: Option<&str>) -> bool {
    text matches Some(s) && says_on(s@)
}

/// Is a flag set?
pub fn is_on(text: Option<&str>) -> (r: bool)
    ensures
        r == flag(text),
{
    match text {
        Some(s) => same_text(s, "1") || same_text(s, "true"),
        None => false,
    }
}

/// Is something that is on by itself switched off?
pub fn is_off(text: Option<&str>) -> (r: bool)
    ensures
        r == (text matches Some(s) && says_off(s@)),
{
    match text {
        Some(s) => same_text(s, "0") || same_text(s, "false"),
        None => false,
    }
}

/// A number as a text writes it.
pub open spec fn number(text: Option<Seq<char>>) -> EnvNumber {
    match text {
        None => EnvNumber::Unset,
        Some(s) => match parsed_usize(s) {
            Some(n) => EnvNumber::Value(n),
            None => EnvNumber::Invalid,
        },
    }
}

fn read_number(text: Option<&str>, trims: bool) -> (r: EnvNumber)
    ensures
        r == number(
            match text {
                None => None,
                Some(s) => Some(
                    if trims {
                        trimmed(s@)
                    } else {
                        s@
                    },
                ),
            },
        ),
{
    match text {
        None => EnvNumber::Unset,
        Some(s) => {
            let chars: Vec<char> = to_chars(s);
            let digits: &[char] = if trims {
                trim(chars.as_slice())
            } else {
                chars.as_slice()
            };
            match parse_usize(digits) {
                Some(n) => EnvNumber::Value(n),
                None => EnvNumber::Invalid,
            }
        },
    }
}

/// A switch with three places: not touched, off and on. White space around the text does not
/// matter.
pub open spec fn switch(text: Option<&str>) -> EnvSwitch {
    match text {
        None => EnvSwitch::Unset,
        Some(s) => if says_off(trimmed(s@)) {
            EnvSwitch::Off
        } else if says_on(trimmed(s@)) {
            EnvSwitch::On
        } else {
            EnvSwitch::Invalid
        },
    }
}

fn read_switch(text: Option<&str>) -> (r: EnvSwitch)
    ensures
        r == switch(text),
{
    match text {
        None => EnvSwitch::Unset,
        Some(s) => {
            let chars: Vec<char> = to_chars(s);
            let word: &[char] = trim(chars.as_slice());
            if same_chars(word, to_chars("0").as_slice()) || same_chars(
                word,
                to_chars("false").as_slice(),
            ) {
                EnvSwitch::Off
            } else if same_chars(word, to_chars("1").as_slice()) || same_chars(
                word,
                to_chars("true").as_slice(),
            ) {
                EnvSwitch::On
            } else {
                EnvSwitch::Invalid
            }
        },
    }
}

/// What settings say.
pub open spec fn settings_of(texts: EnvTexts, tracks_events: bool) -> TrainEnv {
    TrainEnv {
        bucket_profile: flag(texts.bucket_profile),
        hist_nodes_per_batch: number(
            match texts.hist_nodes_per_batch {
                None => None,
                Some(s) => Some(trimmed(s@)),
            },
        ),
        row_major: switch(texts.row_major),
        resident_blocks: number(
            match texts.resident_blocks {
                None => None,
                Some(s) => Some(s@),
            },
        ),
        hist_streams: number(
            match texts.hist_streams {
                None => None,
                Some(s) => Some(s@),
            },
        ),
        device_quantize_off: texts.device_quantize matches Some(s) && says_off(s@),
        pinned: flag(texts.pinned),
        tracks_events,
    }
}

impl TrainEnv {
    /// Reads settings. Only the number of nodes and the row-major switch may stand between white
    /// space.
    pub fn read(texts: &EnvTexts, tracks_events: bool) -> (r: TrainEnv)
        ensures
            r == settings_of(*texts, tracks_events),
    {
        TrainEnv {
            bucket_profile: is_on(texts.bucket_profile),
            hist_nodes_per_batch: read_number(texts.hist_nodes_per_batch, true),
            row_major: read_switch(texts.row_major),
            resident_blocks: read_number(texts.resident_blocks, false),
            hist_streams: read_number(texts.hist_streams, false),
            device_quantize_off: is_off(texts.device_quantize),
            pinned: is_on(texts.pinned),
            tracks_events,
        }
    }
}

} // verus!
