use atu10_core::tasks::{doctor_outcome, next_format_step, FormatStep};

#[test]
fn doctor_passes_with_every_required_tool() {
    assert_eq!(doctor_outcome(true, true, true, true), Ok(()));
}

#[test]
fn doctor_names_missing_tools_in_order() {
    assert_eq!(
        doctor_outcome(false, true, true, true),
        Err("missing required tool(s): cargo".to_string())
    );
    assert_eq!(
        doctor_outcome(false, false, false, false),
        Err("missing required tool(s): cargo, rustc, dfp, dfp".to_string())
    );
    assert_eq!(
        doctor_outcome(true, false, true, false),
        Err("missing required tool(s): rustc, dfp".to_string())
    );
}

fn all_steps(fix: bool, md: bool, clang: bool) -> Vec<FormatStep> {
    let mut steps = Vec::new();
    while let Some(step) = next_format_step(fix, md, clang, steps.len(), true) {
        steps.push(step);
    }
    steps
}

#[test]
fn format_fix_runs_the_present_formatters() {
    assert_eq!(
        all_steps(true, true, true),
        vec![FormatStep::CargoFmt, FormatStep::Mdformat, FormatStep::ClangFormat]
    );
    assert_eq!(all_steps(true, false, false), vec![FormatStep::CargoFmt]);
}

#[test]
fn format_check_runs_clippy_and_notes_missing_tools() {
    assert_eq!(
        all_steps(false, false, true),
        vec![
            FormatStep::CargoFmtCheck,
            FormatStep::Clippy,
            FormatStep::SkipMdformat,
            FormatStep::ClangFormatCheck
        ]
    );
}

#[test]
fn format_stops_at_the_first_failure() {
    assert_eq!(next_format_step(false, true, true, 1, false), None);
    assert_eq!(
        next_format_step(false, true, true, 1, true),
        Some(FormatStep::Clippy)
    );
}
