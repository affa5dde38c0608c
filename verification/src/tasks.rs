//! The decisions of the workspace tasks: which required tools the
//! environment check reports missing, and the steps of the format task.
use vstd::prelude::*;

verus! {

/// The names of the missing required tools, in the order checked: cargo,
/// rustc, then one `dfp` for each missing device family pack (bridge, then
/// tuner).
pub open spec fn missing_tools(cargo: bool, rustc: bool, bridge_dfp: bool, tuner_dfp: bool) -> Seq<
    Seq<char>,
> {
    (if cargo {
        Seq::empty()
    } else {
        seq!["cargo"@]
    }) + (if rustc {
        Seq::empty()
    } else {
        seq!["rustc"@]
    }) + (if bridge_dfp {
        Seq::empty()
    } else {
        seq!["dfp"@]
    }) + (if tuner_dfp {
        Seq::empty()
    } else {
        seq!["dfp"@]
    })
}

/// Names joined with `", "`.
pub open spec fn joined(names: Seq<Seq<char>>) -> Seq<char>
    decreases names.len(),
{
    if names.len() == 0 {
        Seq::empty()
    } else if names.len() == 1 {
        names[0]
    } else {
        joined(names.drop_last()) + ", "@ + names.last()
    }
}

/// Message of the environment check's failure.
pub open spec fn missing_tools_message(
    cargo: bool,
    rustc: bool,
    bridge_dfp: bool,
    tuner_dfp: bool,
) -> Seq<char> {
    "missing required tool(s): "@ + joined(missing_tools(cargo, rustc, bridge_dfp, tuner_dfp))
}

/// The outcome of the environment check from what was found: it passes
/// when cargo, rustc and both device family packs are present, and
/// otherwise names what is missing.
pub fn doctor_outcome(cargo: bool, rustc: bool, bridge_dfp: bool, tuner_dfp: bool) -> (r:
    std::result::Result<(), String>)
    ensures
        r is Ok <==> (cargo && rustc && bridge_dfp && tuner_dfp),
        r matches Err(m) ==> m@ == missing_tools_message(cargo, rustc, bridge_dfp, tuner_dfp),
{
    let ghost names = missing_tools(cargo, rustc, bridge_dfp, tuner_dfp);
    let mut m = String::new();
    m.append("missing required tool(s): ");
    let ghost start = m@;
    let mut count: usize = 0;
    let ghost mut listed: Seq<Seq<char>> = Seq::empty();
    if !cargo {
        append_name(&mut m, count, "cargo", Ghost(listed));
        proof {
            listed = listed.push("cargo"@);
        }
        count = count + 1;
    }
    if !rustc {
        append_name(&mut m, count, "rustc", Ghost(listed));
        proof {
            listed = listed.push("rustc"@);
        }
        count = count + 1;
    }
    if !bridge_dfp {
        append_name(&mut m, count, "dfp", Ghost(listed));
        proof {
            listed = listed.push("dfp"@);
        }
        count = count + 1;
    }
    if !tuner_dfp {
        append_name(&mut m, count, "dfp", Ghost(listed));
        proof {
            listed = listed.push("dfp"@);
        }
        count = count + 1;
    }
    assert(listed =~= names);
    if count == 0 {
        Ok(())
    } else {
        Err(m)
    }
}

/// Appends the next name of a list that already holds `listed`.
fn append_name(m: &mut String, count: usize, name: &str, Ghost(listed): Ghost<Seq<Seq<char>>>)
    requires
        count == listed.len(),
        old(m)@ == "missing required tool(s): "@ + joined(listed),
    ensures
        final(m)@ == "missing required tool(s): "@ + joined(listed.push(name@)),
{
    let ghost extended = listed.push(name@);
    assert(extended.drop_last() =~= listed);
    if count > 0 {
        m.append(", ");
    } else {
        assert(joined(listed) =~= Seq::<char>::empty());
    }
    m.append(name);
    assert(m@ =~= "missing required tool(s): "@ + joined(extended));
}

/// A step of the format task.
#[derive(Debug, Clone, Copy, PartialEq, Eq)]
pub enum FormatStep {
    /// `cargo fmt`.
    CargoFmt,
    /// `cargo fmt -- --check`.
    CargoFmtCheck,
    /// `cargo clippy --all-targets --all-features -- -D warnings`.
    Clippy,
    /// `mdformat` on the Markdown files.
    Mdformat,
    /// `mdformat --check` on the Markdown files.
    MdformatCheck,
    /// A note that mdformat is missing and the Markdown check is skipped.
    SkipMdformat,
    /// `clang-format -i` on the C files.
    ClangFormat,
    /// `clang-format --dry-run --Werror` on the C files.
    ClangFormatCheck,
    /// A note that clang-format is missing and the C check is skipped.
    SkipClangFormat,
}

/// The steps of the format task. Fixing runs cargo fmt, then mdformat and
/// clang-format where present. Checking runs cargo fmt in check mode,
/// clippy with warnings as errors, then the mdformat and clang-format
/// checks, each replaced by a note where the tool is missing.
pub open spec fn format_steps(fix: bool, has_mdformat: bool, has_clang_format: bool) -> Seq<
    FormatStep,
> {
    if fix {
        seq![FormatStep::CargoFmt] + (if has_mdformat {
            seq![FormatStep::Mdformat]
        } else {
            Seq::empty()
        }) + (if has_clang_format {
            seq![FormatStep::ClangFormat]
        } else {
            Seq::empty()
        })
    } else {
        seq![FormatStep::CargoFmtCheck, FormatStep::Clippy] + (if has_mdformat {
            seq![FormatStep::MdformatCheck]
        } else {
            seq![FormatStep::SkipMdformat]
        }) + (if has_clang_format {
            seq![FormatStep::ClangFormatCheck]
        } else {
            seq![FormatStep::SkipClangFormat]
        })
    }
}

/// The step of the format task after `done` steps, the last of which
/// succeeded when `last_ok`: a failure ends the task, and so does the end
/// of the steps.
pub fn next_format_step(
    fix: bool,
    has_mdformat: bool,
    has_clang_format: bool,
    done: usize,
    last_ok: bool,
) -> (s: Option<FormatStep>)
    ensures
        s == (if !last_ok || done >= format_steps(fix, has_mdformat, has_clang_format).len() {
            None
        } else {
            Some(format_steps(fix, has_mdformat, has_clang_format)[done as int])
        }),
{
    if !last_ok {
        return None;
    }
    let mut steps: Vec<FormatStep> = Vec::new();
    if fix {
        steps.push(FormatStep::CargoFmt);
        if has_mdformat {
            steps.push(FormatStep::Mdformat);
        }
        if has_clang_format {
            steps.push(FormatStep::ClangFormat);
        }
    } else {
        steps.push(FormatStep::CargoFmtCheck);
        steps.push(FormatStep::Clippy);
        if has_mdformat {
            steps.push(FormatStep::MdformatCheck);
        } else {
            steps.push(FormatStep::SkipMdformat);
        }
        if has_clang_format {
            steps.push(FormatStep::ClangFormatCheck);
        } else {
            steps.push(FormatStep::SkipClangFormat);
        }
    }
    assert(steps@ =~= format_steps(fix, has_mdformat, has_clang_format));
    if done < steps.len() {
        Some(steps[done])
    } else {
        None
    }
}

/// The steps that rewrite files.
pub open spec fn rewrites(step: FormatStep) -> bool {
    step == FormatStep::CargoFmt || step == FormatStep::Mdformat || step == FormatStep::ClangFormat
}

/// The format task's modes: checking runs cargo fmt in check mode, clippy,
/// then the Markdown check (or a note that mdformat is missing) and the C
/// check (or a note that clang-format is missing), and no step rewrites a
/// file; fixing runs only steps that rewrite files, cargo fmt first, then
/// mdformat and clang-format exactly when present.
pub proof fn lemma_format_modes(has_mdformat: bool, has_clang_format: bool)
    ensures
        ({
            let check = format_steps(false, has_mdformat, has_clang_format);
            &&& check.len() == 4
            &&& forall|i: int| 0 <= i < check.len() ==> !rewrites(#[trigger] check[i])
            &&& check[0] == FormatStep::CargoFmtCheck
            &&& check[1] == FormatStep::Clippy
            &&& (has_mdformat ==> check[2] == FormatStep::MdformatCheck)
            &&& (!has_mdformat ==> check[2] == FormatStep::SkipMdformat)
            &&& (has_clang_format ==> check[3] == FormatStep::ClangFormatCheck)
            &&& (!has_clang_format ==> check[3] == FormatStep::SkipClangFormat)
        }),
        ({
            let fix = format_steps(true, has_mdformat, has_clang_format);
            &&& forall|i: int| 0 <= i < fix.len() ==> rewrites(#[trigger] fix[i])
            &&& fix[0] == FormatStep::CargoFmt
            &&& fix.contains(FormatStep::Mdformat) == has_mdformat
            &&& fix.contains(FormatStep::ClangFormat) == has_clang_format
            &&& fix.len() == 1 + (if has_mdformat {
                1int
            } else {
                0int
            }) + (if has_clang_format {
                1int
            } else {
                0int
            })
        }),
{
    let fix = format_steps(true, has_mdformat, has_clang_format);
    if has_mdformat {
        let i = 1int;
        assert(fix[i] == FormatStep::Mdformat);
    }
    if has_clang_format {
        let i = fix.len() - 1;
        assert(fix[i] == FormatStep::ClangFormat);
    }
}

} // verus!
