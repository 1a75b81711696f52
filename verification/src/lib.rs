//! Verified core of a sway-config display-scale switcher.
//!
//! A configuration file is modelled as a sequence of byte lines. The library
//! locates a marker-bounded "scale options" section, extracts the managed
//! display names and the permitted scale factors, derives the currently
//! active scale from `output "<name>" scale <number>` lines, computes the
//! next scale (cycling) or interprets an interactive menu choice, and
//! rewrites the matching output lines while leaving every other byte of the
//! file untouched.
//!
//! Scale factors are decimal numbers; the library represents them exactly as
//! integer millionths (micros), so a factor `1.25` is held as `1_250_000`.
//! The surrounding application converts between file text and byte lines and
//! performs all input and output.

pub mod inspect;
pub mod paths;
pub mod rewrite;
pub mod scale;
pub mod section;
pub mod select;
pub mod text;

use vstd::prelude::*;
use crate::inspect::{current_scale_spec, ReadingStatus};
use crate::inspect::get_current_scale;
use crate::rewrite::rewrite_lines;
use crate::rewrite::update_scale_in_outputs;
use crate::section::{parse_section_spec, section_bounds, ConfigError, ScaleOptions};
use crate::section::{find_section, parse_scale_options};
use crate::select::next_scale_spec;
use crate::select::get_next_scale;

verus! {

/// What reading the configuration yields: the section's declared displays
/// and scale values, or the first fatal fault found.
pub open spec fn config_spec(lines: Seq<Seq<u8>>) -> Result<
    (Seq<Seq<u8>>, Seq<u64>),
    ConfigError,
> {
    match section_bounds(lines) {
        Ok((s, e)) => parse_section_spec(lines.subrange(s, e + 1)),
        Err(err) => Err(err),
    }
}

/// The parsed section together with the derived current scale.
pub struct Analysis {
    pub options: ScaleOptions,
    pub current: u64,
    pub status: ReadingStatus,
}

/// Read the configuration: locate the section, parse it, and derive the
/// current scale across the declared target displays.
pub exec fn analyze_config(lines: &Vec<Vec<u8>>) -> (r: Result<Analysis, ConfigError>)
    ensures
        match r {
            Ok(an) => {
                &&& config_spec(lines.deep_view()) == Ok::<_, ConfigError>(
                    (an.options.target_displays.deep_view(), an.options.scale_values@),
                )
                &&& (an.current, an.status) == current_scale_spec(
                    lines.deep_view(),
                    an.options.target_displays.deep_view(),
                )
                &&& an.options.target_displays@.len() > 0
                &&& an.options.scale_values@.len() > 0
            },
            Err(err) => config_spec(lines.deep_view()) == Err::<(Seq<Seq<u8>>, Seq<u64>), _>(err),
        },
{
    let n = lines.len();
    let (s, e) = match find_section(lines) {
        Ok(b) => b,
        Err(err) => {
            return Err(err);
        },
    };
    proof {
        assert(e < n);
    }
    let options = match parse_scale_options(lines, s, e + 1) {
        Ok(o) => o,
        Err(err) => {
            return Err(err);
        },
    };
    proof {
        assert(options.target_displays.deep_view().len() == options.target_displays@.len());
    }
    let (current, status) = get_current_scale(lines, &options.target_displays);
    Ok(Analysis { options, current, status })
}

/// Everything cycle mode produces: the rewritten file and how the new
/// scale was chosen.
pub struct CycleOutcome {
    /// The file with every target output line carrying the next scale.
    pub lines: Vec<Vec<u8>>,
    /// The current scale the inspector derived, in micros.
    pub current: u64,
    /// How trustworthy that derivation was.
    pub status: ReadingStatus,
    /// The scale the cycle chose, in micros.
    pub next: u64,
    /// Whether the current scale was found among the declared values;
    /// when it was not, the smallest declared value was chosen.
    pub matched: bool,
}

/// Cycle mode in one step: read the configuration, pick the next scale in
/// ascending order (wrapping past the largest), and rewrite the file.
pub exec fn cycle_update(lines: &Vec<Vec<u8>>) -> (r: Result<CycleOutcome, ConfigError>)
    ensures
        match r {
            Ok(o) => {
                &&& config_spec(lines.deep_view()) is Ok
                &&& {
                    let (targets, values) = config_spec(lines.deep_view()).unwrap();
                    &&& (o.current, o.status) == current_scale_spec(lines.deep_view(), targets)
                    &&& (o.next, o.matched) == next_scale_spec(values, o.current)
                    &&& o.lines.deep_view() == rewrite_lines(lines.deep_view(), targets, o.next)
                    &&& o.lines@.len() == lines@.len()
                }
            },
            Err(err) => config_spec(lines.deep_view()) == Err::<(Seq<Seq<u8>>, Seq<u64>), _>(err),
        },
{
    let an = match analyze_config(lines) {
        Ok(an) => an,
        Err(err) => {
            return Err(err);
        },
    };
    let (next, matched) = get_next_scale(&an.options.scale_values, an.current);
    let new_lines = update_scale_in_outputs(lines, &an.options.target_displays, next);
    proof {
        assert(rewrite_lines(
            lines.deep_view(),
            an.options.target_displays.deep_view(),
            next,
        ).len() == lines.deep_view().len());
    }
    Ok(
        CycleOutcome {
            lines: new_lines,
            current: an.current,
            status: an.status,
            next,
            matched,
        },
    )
}

} // verus!
