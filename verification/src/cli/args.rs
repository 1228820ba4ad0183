//! Command line arguments.

use vstd::prelude::*;

use crate::req::model::opt_view;
use vstd::string::StringExecFns;

verus! {

/// What the program does with the selected request.
#[derive(Debug, Clone, Copy, PartialEq, Eq, Structural)]
pub enum Mode {
    Run,
    Check,
    ExportCurl,
    ListRequests,
}

/// How results are printed.
#[derive(Debug, Clone, Copy, PartialEq, Eq, Structural)]
pub enum OutputFormat {
    Text,
    Json,
}

/// Parsed command line options.
pub struct CliOptions {
    pub context_json: Option<String>,
    pub mode: Mode,
    pub output_format: OutputFormat,
}

/// Value of [`CliOptions`].
pub struct OptionsModel {
    pub context_json: Option<Seq<char>>,
    pub mode: Mode,
    pub output_format: OutputFormat,
}

impl View for CliOptions {
    type V = OptionsModel;

    open spec fn view(&self) -> OptionsModel {
        OptionsModel {
            context_json: opt_view(self.context_json),
            mode: self.mode,
            output_format: self.output_format,
        }
    }
}

/// A mode flag may repeat, but two different modes conflict.
pub open spec fn spec_set_mode(current: Mode, next: Mode) -> Result<Mode, Seq<char>> {
    if current != Mode::Run && current != next {
        Err("Only one command mode can be used at a time"@)
    } else {
        Ok(next)
    }
}

/// Options after reading `args` from state `st`.
pub open spec fn parse_args_from(args: Seq<Seq<char>>, st: OptionsModel) -> Result<OptionsModel, Seq<char>>
    decreases args.len(),
{
    if args.len() == 0 {
        Ok(st)
    } else {
        let a = args[0];
        if a == "--list-requests"@ {
            match spec_set_mode(st.mode, Mode::ListRequests) {
                Err(e) => Err(e),
                Ok(mode) => parse_args_from(args.drop_first(), OptionsModel { mode, ..st }),
            }
        } else if a == "--check"@ {
            match spec_set_mode(st.mode, Mode::Check) {
                Err(e) => Err(e),
                Ok(mode) => parse_args_from(args.drop_first(), OptionsModel { mode, ..st }),
            }
        } else if a == "--export-curl"@ {
            match spec_set_mode(st.mode, Mode::ExportCurl) {
                Err(e) => Err(e),
                Ok(mode) => parse_args_from(args.drop_first(), OptionsModel { mode, ..st }),
            }
        } else if a == "--output-json"@ {
            parse_args_from(args.drop_first(), OptionsModel { output_format: OutputFormat::Json, ..st })
        } else if a == "--context-json"@ {
            if args.len() < 2 {
                Err("Missing value for --context-json"@)
            } else {
                parse_args_from(args.skip(2), OptionsModel { context_json: Some(args[1]), ..st })
            }
        } else {
            Err("Unknown argument: "@ + a)
        }
    }
}

/// Options of the arguments `args` (the program name excluded).
pub open spec fn spec_parse_args(args: Seq<Seq<char>>) -> Result<OptionsModel, Seq<char>> {
    parse_args_from(
        args,
        OptionsModel { context_json: None, mode: Mode::Run, output_format: OutputFormat::Text },
    )
}

fn set_mode(current: &mut Mode, next: Mode) -> (r: Result<(), String>)
    ensures
        match r {
            Ok(_) => spec_set_mode(*old(current), next) == Ok::<_, Seq<char>>(*final(current)),
            Err(e) => spec_set_mode(*old(current), next) == Err::<Mode, _>(e@) && *final(current) == *old(current),
        },
{
    if *current != Mode::Run && *current != next {
        return Err("Only one command mode can be used at a time".to_owned());
    }
    *current = next;
    Ok(())
}

/// Parses the command line arguments that follow the program name.
pub fn parse_args(args: &Vec<String>) -> (r: Result<CliOptions, String>)
    ensures
        match r {
            Ok(o) => spec_parse_args(crate::text::string_views(args@)) == Ok::<_, Seq<char>>(o@),
            Err(e) => spec_parse_args(crate::text::string_views(args@)) == Err::<OptionsModel, _>(e@),
        },
{
    let ghost all = crate::text::string_views(args@);
    let mut context: Option<String> = None;
    let mut mode = Mode::Run;
    let mut output_format = OutputFormat::Text;
    let mut i: usize = 0;
    assert(all.skip(0) =~= all);
    while i < args.len()
        invariant
            i <= args@.len(),
            all == crate::text::string_views(args@),
            spec_parse_args(all) == parse_args_from(
                all.skip(i as int),
                OptionsModel { context_json: opt_view(context), mode, output_format },
            ),
        decreases args@.len() - i,
    {
        let ghost rest = all.skip(i as int);
        let ghost st = OptionsModel { context_json: opt_view(context), mode, output_format };
        assert(rest[0] == args@[i as int]@);
        assert(rest.drop_first() =~= all.skip(i + 1));
        let arg = &args[i];
        if *arg == "--list-requests".to_owned() {
            match set_mode(&mut mode, Mode::ListRequests) {
                Ok(_) => {},
                Err(e) => {
                    return Err(e);
                },
            }
            i = i + 1;
        } else if *arg == "--check".to_owned() {
            match set_mode(&mut mode, Mode::Check) {
                Ok(_) => {},
                Err(e) => {
                    return Err(e);
                },
            }
            i = i + 1;
        } else if *arg == "--export-curl".to_owned() {
            match set_mode(&mut mode, Mode::ExportCurl) {
                Ok(_) => {},
                Err(e) => {
                    return Err(e);
                },
            }
            i = i + 1;
        } else if *arg == "--output-json".to_owned() {
            output_format = OutputFormat::Json;
            i = i + 1;
        } else if *arg == "--context-json".to_owned() {
            if i + 1 >= args.len() {
                return Err("Missing value for --context-json".to_owned());
            }
            assert(rest[1] == args@[i + 1]@);
            assert(rest.skip(2) =~= all.skip(i + 2));
            context = Some(args[i + 1].clone());
            i = i + 2;
        } else {
            let mut message = "Unknown argument: ".to_owned();
            message.append(arg.as_str());
            return Err(message);
        }
    }
    assert(all.skip(i as int) =~= Seq::<Seq<char>>::empty());
    Ok(CliOptions { context_json: context, mode, output_format })
}

} // verus!
