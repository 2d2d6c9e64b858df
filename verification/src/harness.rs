//! The decisions of a fuzzing harness around the generator: which rule to
//! start from, under which ceiling, and what to make of what the parsers say
//! of a generated string. Running the parsers and writing files is the
//! caller's part.

use crate::error::GenError;
use crate::parser::NoirParser;
use vstd::prelude::*;
use vstd::string::StringExecFns;

verus! {

/// The size ceiling under which the harness generates.
pub const CEILING: u64 = 10_000_000;

/// How the harness treats its findings.
#[derive(Clone, Copy, Debug, PartialEq, Eq, Structural)]
pub struct Harness {
    /// Whether a report is written for every input.
    pub save: bool,
    /// Whether a finding stops the run.
    pub do_panic: bool,
}

/// How far an input got, with what each stage printed.
pub enum Stage {
    /// No string was generated: the input is discarded.
    NotGenerated,
    /// The parser rejected the generated string.
    NotParsed { code: String },
    /// The parser accepted the string and produced nothing.
    NoPair { code: String },
    /// The parser accepted the string and the reference parser reported
    /// errors.
    Disagreed { code: String, pair: String, errors: String },
    /// Both parsers accepted the string.
    Agreed { code: String, pair: String, program: String },
}

/// What the harness does with an input.
pub struct Report {
    /// The text of the report.
    pub debug: String,
    /// The finding, and the empty string where there is none.
    pub error: String,
    /// Whether the report is to be written.
    pub save: bool,
    /// Whether the run is to stop with the finding.
    pub panic: bool,
}

/// The finding for a stage. That no string was generated is no finding: the
/// caller discards the input and tries another.
pub open spec fn finding(stage: Stage) -> Seq<char> {
    match stage {
        Stage::NotGenerated => Seq::empty(),
        Stage::NotParsed { .. } => "first unwrap failed"@,
        Stage::NoPair { .. } => "second unwrap failed"@,
        Stage::Disagreed { errors, .. } => "noir parser failed with errors "@ + errors@,
        Stage::Agreed { .. } => Seq::empty(),
    }
}

/// What the stages printed, a line each.
pub open spec fn transcript(stage: Stage) -> Seq<char> {
    match stage {
        Stage::NotGenerated => Seq::empty(),
        Stage::NotParsed { code } => code@ + "\n"@,
        Stage::NoPair { code } => code@ + "\n"@,
        Stage::Disagreed { code, pair, .. } => code@ + "\n"@ + pair@ + "\n"@,
        Stage::Agreed { code, pair, program } => code@ + "\n"@ + pair@ + "\n"@ + program@
            + "\n"@,
    }
}

/// The text of the report for a stage: the transcript, and a line with the
/// finding where there is one.
pub open spec fn report_text(stage: Stage) -> Seq<char> {
    if finding(stage).len() == 0 {
        transcript(stage)
    } else {
        transcript(stage) + "ERR: "@ + finding(stage) + "\n"@
    }
}

/// The harness of a fuzzing run: every finding stops the run, and reports are
/// written if `save` says so.
pub fn fuzz(save: bool) -> (h: Harness)
    ensures
        h == (Harness { save, do_panic: true }),
{
    Harness { save, do_panic: true }
}

fn line(text: &mut String, part: &String)
    ensures
        final(text)@ == old(text)@ + part@ + "\n"@,
{
    text.append(part.as_str());
    text.append("\n");
}

impl Harness {
    /// Generates the program for one input: from the rule `program`, under
    /// the harness's ceiling.
    pub fn generate(&self, parser: &NoirParser, data: &[u8]) -> (r: Result<String, GenError>)
        ensures
            match parser@.generate("program"@, data@, Some(CEILING)) {
                Ok(d) => r is Ok && r->Ok_0@ == d.text,
                Err(e) => r == Err::<String, GenError>(e),
            },
    {
        parser.generate("program", data, Some(CEILING))
    }

    /// What to do with an input that got as far as `stage`.
    pub fn parse(&self, stage: &Stage) -> (r: Report)
        ensures
            r.debug@ == report_text(*stage),
            r.error@ == finding(*stage),
            r.save == self.save,
            r.panic == (self.do_panic && finding(*stage).len() > 0),
    {
        let mut debug = String::new();
        let mut error = String::new();
        let mut found = true;
        match stage {
            Stage::NotGenerated => {
                found = false;
            },
            Stage::NotParsed { code } => {
                line(&mut debug, code);
                error.append("first unwrap failed");
            },
            Stage::NoPair { code } => {
                line(&mut debug, code);
                error.append("second unwrap failed");
            },
            Stage::Disagreed { code, pair, errors } => {
                line(&mut debug, code);
                line(&mut debug, pair);
                error.append("noir parser failed with errors ");
                error.append(errors.as_str());
            },
            Stage::Agreed { code, pair, program } => {
                line(&mut debug, code);
                line(&mut debug, pair);
                line(&mut debug, program);
                found = false;
            },
        }
        proof {
            reveal_strlit("first unwrap failed");
            reveal_strlit("second unwrap failed");
            reveal_strlit("noir parser failed with errors ");
            assert(debug@ =~= transcript(*stage));
            assert(error@ =~= finding(*stage));
            assert(found == (finding(*stage).len() > 0));
        }
        if found {
            debug.append("ERR: ");
            debug.append(error.as_str());
            debug.append("\n");
        }
        Report { debug, error, save: self.save, panic: self.do_panic && found }
    }
}

} // verus!
