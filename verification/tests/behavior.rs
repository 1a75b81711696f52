use scale_swapper::inspect::{get_current_scale, ReadingStatus};
use scale_swapper::paths::expand_home;
use scale_swapper::rewrite::update_scale_in_outputs;
use scale_swapper::scale::{fmt_scale_bytes, parse_scale_token};
use scale_swapper::section::{find_section, ConfigError};
use scale_swapper::select::{
    decide_selection, get_next_scale, interpret_choice, sort_scales, MenuChoice, Selection,
};
use scale_swapper::{analyze_config, cycle_update};

fn lines_of(ls: &[&str]) -> Vec<Vec<u8>> {
    ls.iter().map(|l| l.as_bytes().to_vec()).collect()
}

fn strings_of(ls: &Vec<Vec<u8>>) -> Vec<String> {
    ls.iter()
        .map(|l| String::from_utf8(l.clone()).unwrap())
        .collect()
}

fn b(s: &str) -> Vec<u8> {
    s.as_bytes().to_vec()
}

const SECTION: [&str; 4] = [
    "# Scale Options Start",
    "# Target Display = eDP-1",
    "# Scale Options = 1.0, 1.25, 1.5",
    "# Scale Options End",
];

fn full_config(output_line: &str) -> Vec<Vec<u8>> {
    let mut ls: Vec<&str> = SECTION.to_vec();
    ls.push(output_line);
    lines_of(&ls)
}

#[test]
fn parse_simple_scale() {
    assert_eq!(parse_scale_token(&b("1.25")), Some(1_250_000));
    assert_eq!(parse_scale_token(&b(" 1.5 ")), Some(1_500_000));
    assert_eq!(parse_scale_token(&b("2")), Some(2_000_000));
    assert_eq!(parse_scale_token(&b(".5")), Some(500_000));
    assert_eq!(parse_scale_token(&b("3.")), Some(3_000_000));
    assert_eq!(parse_scale_token(&b("")), None);
    assert_eq!(parse_scale_token(&b("abc")), None);
    assert_eq!(parse_scale_token(&b("1.2.3")), None);
    assert_eq!(parse_scale_token(&b(".")), None);
}

#[test]
fn format_canonical() {
    assert_eq!(fmt_scale_bytes(1_000_000), b("1"));
    assert_eq!(fmt_scale_bytes(1_250_000), b("1.25"));
    assert_eq!(fmt_scale_bytes(1_500_000), b("1.5"));
    assert_eq!(fmt_scale_bytes(500_000), b("0.5"));
    assert_eq!(fmt_scale_bytes(2_000_000), b("2"));
    assert_eq!(fmt_scale_bytes(1_000_001), b("1.000001"));
}

#[test]
fn format_then_parse_round_trips() {
    for m in [1_000_000u64, 1_250_000, 500_000, 2_000_000, 1_000_001, 0, 123_456_789] {
        assert_eq!(parse_scale_token(&fmt_scale_bytes(m)), Some(m));
    }
}

#[test]
fn sort_is_ascending_and_order_independent() {
    let a = sort_scales(&vec![1_500_000, 1_000_000, 1_250_000]);
    let b2 = sort_scales(&vec![1_250_000, 1_500_000, 1_000_000]);
    assert_eq!(a, vec![1_000_000, 1_250_000, 1_500_000]);
    assert_eq!(a, b2);
}

#[test]
fn cycle_picks_next_smallest() {
    // current is the 2nd smallest of three: the cycle picks the 3rd.
    let values = vec![1_500_000, 1_000_000, 1_250_000];
    let (next, matched) = get_next_scale(&values, 1_250_000);
    assert!(matched);
    assert_eq!(next, 1_500_000);
}

#[test]
fn cycle_wraps_to_smallest() {
    let values = vec![1_000_000, 1_250_000, 1_500_000];
    let (next, matched) = get_next_scale(&values, 1_500_000);
    assert!(matched);
    assert_eq!(next, 1_000_000);
}

#[test]
fn cycle_falls_back_when_current_unknown() {
    let values = vec![1_500_000, 1_250_000];
    let (next, matched) = get_next_scale(&values, 2_000_000);
    assert!(!matched);
    assert_eq!(next, 1_250_000);
}

#[test]
fn cycle_mode_scenario() {
    // The documented scenario: current scale 1.25 cycles to 1.5.
    let config = full_config("output \"eDP-1\" scale 1.25");
    let out = cycle_update(&config).unwrap();
    assert_eq!(out.current, 1_250_000);
    assert_eq!(out.status, ReadingStatus::Consistent);
    assert_eq!(out.next, 1_500_000);
    assert!(out.matched);
    let new_lines = strings_of(&out.lines);
    assert_eq!(new_lines[4], "output \"eDP-1\" scale 1.5");
    for i in 0..4 {
        assert_eq!(new_lines[i], SECTION[i]);
    }
}

#[test]
fn cycle_mode_wraps_scenario() {
    // Current scale 1.5 is the largest declared value: the cycle wraps to 1.0.
    let config = full_config("output \"eDP-1\" scale 1.5");
    let out = cycle_update(&config).unwrap();
    assert_eq!(out.current, 1_500_000);
    assert_eq!(out.next, 1_000_000);
    assert!(out.matched);
    let new_lines = strings_of(&out.lines);
    assert_eq!(new_lines[4], "output \"eDP-1\" scale 1");
}

#[test]
fn rewrite_preserves_length_and_other_lines() {
    let config = lines_of(&[
        "# a comment",
        "output \"eDP-1\" scale 1.25",
        "output \"HDMI-A-1\" scale 2",
        "    output \"eDP-1\" scale 1.25",
        "bindsym $mod+Return exec $term",
    ]);
    let targets = vec![b("eDP-1")];
    let out = update_scale_in_outputs(&config, &targets, 1_500_000);
    assert_eq!(out.len(), config.len());
    let texts = strings_of(&out);
    assert_eq!(texts[0], "# a comment");
    assert_eq!(texts[1], "output \"eDP-1\" scale 1.5");
    // a different display's line is untouched
    assert_eq!(texts[2], "output \"HDMI-A-1\" scale 2");
    // the grammar is anchored: leading whitespace means no match
    assert_eq!(texts[3], "    output \"eDP-1\" scale 1.25");
    assert_eq!(texts[4], "bindsym $mod+Return exec $term");
}

#[test]
fn rewrite_keeps_trailing_text() {
    let config = lines_of(&["output \"eDP-1\" scale 1.25 pos 0 0 transform 90"]);
    let targets = vec![b("eDP-1")];
    let out = update_scale_in_outputs(&config, &targets, 2_000_000);
    assert_eq!(
        strings_of(&out)[0],
        "output \"eDP-1\" scale 2 pos 0 0 transform 90"
    );
}

#[test]
fn rewrite_with_current_scale_is_identity_on_canonical_lines() {
    // Round trip: a canonical matching line rewritten with its own scale
    // comes back byte-identical.
    let config = lines_of(&["output \"eDP-1\" scale 1.25", "# untouched"]);
    let targets = vec![b("eDP-1")];
    let once = update_scale_in_outputs(&config, &targets, 1_250_000);
    assert_eq!(once, config);
    // And rewriting is idempotent in general.
    let twice = update_scale_in_outputs(&once, &targets, 1_250_000);
    assert_eq!(twice, once);
}

#[test]
fn rewrite_normalizes_spacing_once() {
    // A matching line with loose spacing is rebuilt in canonical form;
    // rewriting the result again changes nothing.
    let config = lines_of(&["output   \" eDP-1 \"   scale   1.25  extra"]);
    let targets = vec![b("eDP-1")];
    let once = update_scale_in_outputs(&config, &targets, 1_250_000);
    assert_eq!(strings_of(&once)[0], "output \"eDP-1\" scale 1.25  extra");
    let twice = update_scale_in_outputs(&once, &targets, 1_250_000);
    assert_eq!(twice, once);
}

#[test]
fn current_scale_defaults_to_one_without_readings() {
    let config = lines_of(&[
        "# Scale Options Start",
        "# Target Display = eDP-1",
        "# Scale Options = 1.0, 1.25",
        "# Scale Options End",
        "output \"HDMI-A-1\" scale 2",
    ]);
    let targets = vec![b("eDP-1")];
    let (scale, status) = get_current_scale(&config, &targets);
    assert_eq!(scale, 1_000_000);
    assert_eq!(status, ReadingStatus::NoReadings);
}

#[test]
fn current_scale_disagreement_keeps_first() {
    let config = lines_of(&[
        "output \"DP-1\" scale 1.5",
        "output \"eDP-1\" scale 1.25",
    ]);
    let targets = vec![b("eDP-1"), b("DP-1")];
    let (scale, status) = get_current_scale(&config, &targets);
    assert_eq!(scale, 1_500_000);
    assert_eq!(status, ReadingStatus::Inconsistent);
}

#[test]
fn current_scale_unparsable_token_reads_as_one() {
    let config = lines_of(&["output \"eDP-1\" scale 1.2.3"]);
    let targets = vec![b("eDP-1")];
    let (scale, status) = get_current_scale(&config, &targets);
    assert_eq!(scale, 1_000_000);
    assert_eq!(status, ReadingStatus::Consistent);
}

#[test]
fn interactive_rejects_then_accepts() {
    // Inputs "abc" and "9" are rejected against three options; "2" picks
    // the second declared value.
    let values = vec![1_000_000, 1_250_000, 1_500_000];
    let inputs = vec![b("abc"), b("9"), b("2")];
    assert_eq!(interpret_choice(&inputs[0], 3), MenuChoice::Invalid);
    assert_eq!(interpret_choice(&inputs[1], 3), MenuChoice::Invalid);
    assert_eq!(interpret_choice(&inputs[2], 3), MenuChoice::Pick(2));
    let sel = decide_selection(&values, &inputs);
    assert_eq!(sel, Some(Selection::Chosen(1_250_000)));
}

#[test]
fn interactive_quit_and_edges() {
    let values = vec![1_000_000, 1_250_000];
    assert_eq!(interpret_choice(&b("q"), 2), MenuChoice::Quit);
    assert_eq!(interpret_choice(&b("Q"), 2), MenuChoice::Quit);
    assert_eq!(interpret_choice(&b(" q "), 2), MenuChoice::Quit);
    assert_eq!(interpret_choice(&b("0"), 2), MenuChoice::Invalid);
    assert_eq!(interpret_choice(&b("3"), 2), MenuChoice::Invalid);
    assert_eq!(interpret_choice(&b(" 1 "), 2), MenuChoice::Pick(1));
    assert_eq!(interpret_choice(&b("+2"), 2), MenuChoice::Pick(2));
    assert_eq!(interpret_choice(&b(""), 2), MenuChoice::Invalid);
    assert_eq!(
        decide_selection(&values, &vec![b("q")]),
        Some(Selection::Aborted)
    );
    assert_eq!(decide_selection(&values, &vec![b("x")]), None);
}

#[test]
fn missing_start_marker_is_fatal() {
    let config = lines_of(&["# Target Display = eDP-1", "# Scale Options End"]);
    assert_eq!(
        analyze_config(&config).err(),
        Some(ConfigError::MissingStartMarker)
    );
}

#[test]
fn missing_end_marker_is_fatal_and_rewrites_nothing() {
    let config = lines_of(&[
        "# Scale Options Start",
        "# Target Display = eDP-1",
        "# Scale Options = 1.0, 1.25",
        "output \"eDP-1\" scale 1.25",
    ]);
    let r = cycle_update(&config);
    assert_eq!(r.err(), Some(ConfigError::MissingEndMarker));
}

#[test]
fn empty_display_list_is_fatal() {
    let config = lines_of(&[
        "# Scale Options Start",
        "# Scale Options = 1.0, 1.25",
        "# Scale Options End",
    ]);
    assert_eq!(
        analyze_config(&config).err(),
        Some(ConfigError::NoTargetDisplays)
    );
}

#[test]
fn empty_scale_list_is_fatal() {
    let config = lines_of(&[
        "# Scale Options Start",
        "# Target Display = eDP-1",
        "# Scale Options = nope, ,",
        "# Scale Options End",
    ]);
    assert_eq!(
        analyze_config(&config).err(),
        Some(ConfigError::NoScaleValues)
    );
    let config2 = lines_of(&[
        "# Scale Options Start",
        "# Target Display = eDP-1",
        "# Scale Options End",
    ]);
    assert_eq!(
        analyze_config(&config2).err(),
        Some(ConfigError::NoScaleValues)
    );
}

#[test]
fn last_scale_options_line_wins() {
    let config = lines_of(&[
        "# Scale Options Start",
        "# Target Display = eDP-1",
        "# Scale Options = 1.0, 1.25",
        "# Scale Options = 2.0, 3.0",
        "# Scale Options End",
    ]);
    let an = analyze_config(&config).unwrap();
    assert_eq!(an.options.scale_values, vec![2_000_000, 3_000_000]);
}

#[test]
fn bad_tokens_are_dropped() {
    let config = lines_of(&[
        "# Scale Options Start",
        "# Target Display = eDP-1",
        "# Scale Options = 1.0, x, 1.5,",
        "# Scale Options End",
    ]);
    let an = analyze_config(&config).unwrap();
    assert_eq!(an.options.scale_values, vec![1_000_000, 1_500_000]);
}

#[test]
fn multiple_target_displays_are_kept_in_order() {
    let config = lines_of(&[
        "# Scale Options Start",
        "# Target Display = eDP-1",
        "# Target Display = DP-3",
        "# Scale Options = 1.0",
        "# Scale Options End",
    ]);
    let an = analyze_config(&config).unwrap();
    assert_eq!(an.options.target_displays, vec![b("eDP-1"), b("DP-3")]);
}

#[test]
fn section_bounds_are_first_markers() {
    let config = lines_of(&[
        "set $mod Mod4",
        "# Scale Options Start",
        "# Target Display = eDP-1",
        "# Scale Options = 1.0",
        "# Scale Options End",
        "# Scale Options End",
    ]);
    assert_eq!(find_section(&config), Ok((1, 4)));
}

#[test]
fn section_lines_outside_markers_are_ignored() {
    let config = lines_of(&[
        "# Target Display = HDMI-A-1",
        "# Scale Options Start",
        "# Target Display = eDP-1",
        "# Scale Options = 1.0",
        "# Scale Options End",
        "# Scale Options = 9.0",
    ]);
    let an = analyze_config(&config).unwrap();
    assert_eq!(an.options.target_displays, vec![b("eDP-1")]);
    assert_eq!(an.options.scale_values, vec![1_000_000]);
}

#[test]
fn expand_home_replaces_leading_tilde() {
    assert_eq!(
        expand_home(&b("~/.config/sway/config"), &b("/home/user")),
        b("/home/user/.config/sway/config")
    );
    assert_eq!(
        expand_home(&b("/etc/sway/config"), &b("/home/user")),
        b("/etc/sway/config")
    );
}
