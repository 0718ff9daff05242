//! The command line: options, the plan of a run, and what each positional
//! argument names.

use vstd::prelude::*;
use crate::report::{RenderOptions, Side};
use crate::text::{chars_eq, chars_of, parse_decimal, parse_usize, string_of, sub_chars};

verus! {

/// The options of a run, as given on the command line.
pub struct CliOptions {
    /// `-h` or `--help` was given.
    pub help: bool,
    /// The decoration of the report.
    pub render: RenderOptions,
    /// The positional arguments, in order.
    pub positionals: Vec<String>,
    /// The depth limit of `-L<d>`, the last one given.
    pub max_depth: Option<usize>,
}

/// The abstract content of [`CliOptions`].
pub struct CliModel {
    pub help: bool,
    pub hyperlink: bool,
    pub color: bool,
    pub positionals: Seq<Seq<char>>,
    pub max_depth: Option<usize>,
}

impl View for CliOptions {
    type V = CliModel;

    open spec fn view(&self) -> CliModel {
        CliModel {
            help: self.help,
            hyperlink: self.render.hyperlink,
            color: self.render.color,
            positionals: self.positionals@.map_values(|s: String| s@),
            max_depth: self.max_depth,
        }
    }
}

/// Whether `a` asks for a depth limit: it starts with `-L`.
pub open spec fn is_depth_flag(a: Seq<char>) -> bool {
    a.len() >= 2 && a[0] == '-' && a[1] == 'L'
}

/// The effect of one argument on the options read so far: `-h`/`--help`,
/// `-H`/`--hyperlink` and `-c`/`--color` set their flag, `-L<d>` sets the
/// depth limit or is refused when `<d>` is not a `usize`, and anything else
/// is a positional argument.
pub open spec fn cli_step(m: CliModel, a: Seq<char>) -> Result<CliModel, Seq<char>> {
    if a == "-h"@ || a == "--help"@ {
        Ok(CliModel { help: true, ..m })
    } else if a == "-H"@ || a == "--hyperlink"@ {
        Ok(CliModel { hyperlink: true, ..m })
    } else if a == "-c"@ || a == "--color"@ {
        Ok(CliModel { color: true, ..m })
    } else if is_depth_flag(a) {
        match parse_usize(a.skip(2)) {
            Some(n) => Ok(CliModel { max_depth: Some(n as usize), ..m }),
            None => Err("invalid depth argument `"@ + a + "`: expected -L<integer>"@),
        }
    } else {
        Ok(CliModel { positionals: m.positionals.push(a), ..m })
    }
}

/// The options that the arguments `args` give, read in order; the first
/// refused argument ends the reading with its error.
pub open spec fn cli_model(args: Seq<Seq<char>>) -> Result<CliModel, Seq<char>>
    decreases args.len(),
{
    if args.len() == 0 {
        Ok(CliModel { help: false, hyperlink: false, color: false, positionals: seq![], max_depth: None })
    } else {
        match cli_model(args.drop_last()) {
            Err(e) => Err(e),
            Ok(m) => cli_step(m, args.last()),
        }
    }
}

fn chars_are(v: &Vec<char>, lit: &str) -> (b: bool)
    ensures
        b == (v@ == lit@),
{
    chars_eq(v, &chars_of(lit))
}

/// Reads the command line.
pub fn parse_cli(args: Vec<String>) -> (r: Result<CliOptions, String>)
    ensures
        match r {
            Ok(c) => cli_model(args@.map_values(|s: String| s@)) == Ok::<CliModel, Seq<char>>(c@),
            Err(e) => cli_model(args@.map_values(|s: String| s@)) == Err::<CliModel, Seq<char>>(e@),
        },
{
    let ghost all = args@.map_values(|s: String| s@);
    let mut help = false;
    let mut hyperlink = false;
    let mut color = false;
    let mut max_depth: Option<usize> = None;
    let mut positionals: Vec<String> = Vec::new();
    assert(all.take(0) =~= Seq::<Seq<char>>::empty());
    assert(positionals@.map_values(|s: String| s@) =~= Seq::<Seq<char>>::empty());
    for i in 0..args.len()
        invariant
            all == args@.map_values(|s: String| s@),
            cli_model(all.take(i as int)) == Ok::<CliModel, Seq<char>>(CliModel {
                help,
                hyperlink,
                color,
                positionals: positionals@.map_values(|s: String| s@),
                max_depth,
            }),
    {
        let arg = &args[i];
        let a = chars_of(arg.as_str());
        assert(all.take(i + 1).drop_last() =~= all.take(i as int));
        assert(all.take(i + 1).last() == a@);
        if chars_are(&a, "-h") || chars_are(&a, "--help") {
            help = true;
        } else if chars_are(&a, "-H") || chars_are(&a, "--hyperlink") {
            hyperlink = true;
        } else if chars_are(&a, "-c") || chars_are(&a, "--color") {
            color = true;
        } else if a.len() >= 2 && a[0] == '-' && a[1] == 'L' {
            let digits = sub_chars(&a, 2, a.len());
            assert(digits@ =~= a@.skip(2));
            match parse_decimal(&digits) {
                Some(n) => {
                    max_depth = Some(n);
                },
                None => {
                    let mut msg = String::new();
                    msg.append("invalid depth argument `");
                    msg.append(arg.as_str());
                    msg.append("`: expected -L<integer>");
                    proof {
                        let ghost m = CliModel { help, hyperlink, color, positionals: positionals@.map_values(|s: String| s@), max_depth };
                        assert(cli_model(all.take(i + 1)) == cli_step(m, a@));
                        assert(all.take(args@.len() as int) =~= all);
                        lemma_cli_error_sticks(all, i + 1, msg@);
                    }
                    return Err(msg);
                },
            }
        } else {
            let s = string_of(&a);
            proof {
                assert(positionals@.push(s).map_values(|s: String| s@) =~= positionals@.map_values(|s: String| s@).push(a@));
            }
            positionals.push(s);
        }
    }
    assert(all.take(args@.len() as int) =~= all);
    Ok(CliOptions { help, render: RenderOptions { hyperlink, color }, positionals, max_depth })
}

proof fn lemma_cli_error_sticks(args: Seq<Seq<char>>, k: int, e: Seq<char>)
    requires
        0 <= k <= args.len(),
        cli_model(args.take(k)) == Err::<CliModel, Seq<char>>(e),
    ensures
        cli_model(args) == Err::<CliModel, Seq<char>>(e),
    decreases args.len() - k,
{
    if k < args.len() {
        assert(args.take(k + 1).drop_last() =~= args.take(k));
        lemma_cli_error_sticks(args, k + 1, e);
    } else {
        assert(args.take(k) =~= args);
    }
}

/// What a run does once the command line is read.
pub enum RunPlan {
    /// Print the usage and stop.
    ShowHelp,
    /// Stop with this message, after the usage where `show_help` is set.
    Fail { message: String, show_help: bool },
    /// Compare the two sides, written as on the command line.
    Compare { left: String, right: String },
}

/// The abstract content of a [`RunPlan`].
pub enum PlanView {
    ShowHelp,
    Fail(Seq<char>, bool),
    Compare(Seq<char>, Seq<char>),
}

impl View for RunPlan {
    type V = PlanView;

    open spec fn view(&self) -> PlanView {
        match self {
            RunPlan::ShowHelp => PlanView::ShowHelp,
            RunPlan::Fail { message, show_help } => PlanView::Fail(message@, *show_help),
            RunPlan::Compare { left, right } => PlanView::Compare(left@, right@),
        }
    }
}

/// What a run with the options `c` does: show the usage when asked, refuse
/// a depth limit of 0, compare `.` with the one positional argument or the
/// two positional arguments with each other, and refuse any other count,
/// showing the usage.
pub open spec fn planned_run(c: CliModel) -> PlanView {
    if c.help {
        PlanView::ShowHelp
    } else if c.max_depth == Some(0usize) {
        PlanView::Fail("-L depth must be at least 1"@, false)
    } else if c.positionals.len() == 1 {
        PlanView::Compare("."@, c.positionals[0])
    } else if c.positionals.len() == 2 {
        PlanView::Compare(c.positionals[0], c.positionals[1])
    } else {
        PlanView::Fail("expected 1 or 2 arguments"@, true)
    }
}

/// Decides what a run does.
pub fn plan_run(cli: &CliOptions) -> (p: RunPlan)
    ensures
        p@ == planned_run(cli@),
{
    if cli.help {
        return RunPlan::ShowHelp;
    }
    if let Some(d) = cli.max_depth {
        if d == 0 {
            let mut message = String::new();
            message.append("-L depth must be at least 1");
            return RunPlan::Fail { message, show_help: false };
        }
    }
    if cli.positionals.len() == 1 {
        let mut left = String::new();
        left.append(".");
        RunPlan::Compare { left, right: cli.positionals[0].clone() }
    } else if cli.positionals.len() == 2 {
        RunPlan::Compare { left: cli.positionals[0].clone(), right: cli.positionals[1].clone() }
    } else {
        let mut message = String::new();
        message.append("expected 1 or 2 arguments");
        RunPlan::Fail { message, show_help: true }
    }
}

/// Only a depth of 0 is refused. Without `-h`, with no depth or any depth
/// from 1 up, one positional argument is compared with `.` and two are
/// compared with each other; the depth refusal comes exactly for depth 0.
pub proof fn law_only_depth_zero_is_refused(c: CliModel)
    ensures
        !c.help && (c.max_depth is None || c.max_depth.unwrap() >= 1) && c.positionals.len() == 1
            ==> planned_run(c) == PlanView::Compare("."@, c.positionals[0]),
        !c.help && (c.max_depth is None || c.max_depth.unwrap() >= 1) && c.positionals.len() == 2
            ==> planned_run(c) == PlanView::Compare(c.positionals[0], c.positionals[1]),
        !c.help ==> (planned_run(c) == PlanView::Fail("-L depth must be at least 1"@, false)
            <==> c.max_depth == Some(0usize)),
        c.help ==> planned_run(c) == PlanView::ShowHelp,
{
    if !c.help && c.max_depth != Some(0usize) && planned_run(c) == PlanView::Fail("-L depth must be at least 1"@, false) {
        assert(planned_run(c) == PlanView::Fail("expected 1 or 2 arguments"@, true));
    }
}

} // verus!
