//! Command-line options of the graph analysis.
use vstd::prelude::*;
use crate::text::{chars_of, count_value, parse_count};

verus! {

/// Which encoding the input file uses.
#[derive(Debug, Clone, Copy, PartialEq, Eq, Structural)]
pub enum InputFormat {
    Edges,
    Matrix,
    List,
}

/// The options given on the command line.
#[derive(Debug)]
pub struct CLIArgs {
    pub help: bool,
    pub input_format: Option<InputFormat>,
    pub input_file: Option<String>,
    pub output_file: Option<String>,
    pub start_vertex: Option<usize>,
    pub end_vertex: Option<usize>,
}

/// Why the command line was refused.
#[derive(Debug)]
pub enum ArgError {
    MissingInputFile,
    MultipleInputFormats,
    MissingFormatKey,
    /// A flag that takes a value came last.
    MissingFormatPath(String),
    InvalidNumber(String),
    UnknownFlag(String),
}

/// What an argument in flag position means.
pub enum Flag {
    Help,
    Format(InputFormat),
    Output,
    Start,
    End,
    Unknown,
}

pub open spec fn flag_of(s: Seq<char>) -> Flag {
    if s.len() == 2 && s[0] == '-' {
        if s[1] == 'h' {
            Flag::Help
        } else if s[1] == 'e' {
            Flag::Format(InputFormat::Edges)
        } else if s[1] == 'm' {
            Flag::Format(InputFormat::Matrix)
        } else if s[1] == 'l' {
            Flag::Format(InputFormat::List)
        } else if s[1] == 'o' {
            Flag::Output
        } else if s[1] == 'n' {
            Flag::Start
        } else if s[1] == 'd' {
            Flag::End
        } else {
            Flag::Unknown
        }
    } else {
        Flag::Unknown
    }
}

/// Options read so far: file names are positions in the argument list.
pub struct Reading {
    pub help: bool,
    pub format: Option<InputFormat>,
    pub file: Option<int>,
    pub output: Option<int>,
    pub start: Option<usize>,
    pub end: Option<usize>,
}

/// A refusal, naming the argument it concerns by position.
pub enum Refusal {
    MissingInputFile,
    MultipleInputFormats,
    MissingFormatKey,
    MissingValue(int),
    InvalidNumber,
    UnknownFlag(int),
}

/// Reading the arguments from position `i` on, with options `st` read so far.
pub open spec fn read_from(args: Seq<Seq<char>>, i: int, st: Reading) -> Result<Reading, Refusal>
    decreases args.len() - i,
{
    if i < 0 || i >= args.len() {
        Ok(st)
    } else {
        match flag_of(args[i]) {
            Flag::Help => Ok(Reading { help: true, ..st }),
            Flag::Unknown => Err(Refusal::UnknownFlag(i)),
            Flag::Format(f) => if st.format is Some {
                Err(Refusal::MultipleInputFormats)
            } else if i + 1 >= args.len() {
                Err(Refusal::MissingValue(i))
            } else {
                read_from(args, i + 2, Reading { format: Some(f), file: Some(i + 1), ..st })
            },
            Flag::Output => if i + 1 >= args.len() {
                Err(Refusal::MissingValue(i))
            } else {
                read_from(args, i + 2, Reading { output: Some(i + 1), ..st })
            },
            Flag::Start => if i + 1 >= args.len() {
                Err(Refusal::MissingValue(i))
            } else {
                match count_value(args[i + 1], usize::MAX as nat) {
                    None => Err(Refusal::InvalidNumber),
                    Some(v) => read_from(args, i + 2, Reading { start: Some(v as usize), ..st }),
                }
            },
            Flag::End => if i + 1 >= args.len() {
                Err(Refusal::MissingValue(i))
            } else {
                match count_value(args[i + 1], usize::MAX as nat) {
                    None => Err(Refusal::InvalidNumber),
                    Some(v) => read_from(args, i + 2, Reading { end: Some(v as usize), ..st }),
                }
            },
        }
    }
}

pub open spec fn nothing_read() -> Reading {
    Reading { help: false, format: None, file: None, output: None, start: None, end: None }
}

/// The outcome of reading the whole argument list.
pub open spec fn read_args(args: Seq<Seq<char>>) -> Result<Reading, Refusal> {
    if args.len() == 0 {
        Err(Refusal::MissingFormatKey)
    } else {
        match read_from(args, 0, nothing_read()) {
            Err(e) => Err(e),
            Ok(st) => if st.help {
                Ok(st)
            } else if st.format is None {
                Err(Refusal::MissingFormatKey)
            } else if st.file is None {
                Err(Refusal::MissingInputFile)
            } else {
                Ok(st)
            },
        }
    }
}

pub open spec fn arg_views(args: Seq<String>) -> Seq<Seq<char>> {
    args.map_values(|s: String| s@)
}

pub open spec fn names(v: Option<String>, pos: Option<int>, args: Seq<String>) -> bool {
    match pos {
        None => v is None,
        Some(k) => v is Some && 0 <= k < args.len() && v->Some_0@ == args[k]@,
    }
}

/// `r` is the result that the reading `o` describes.
pub open spec fn matches_reading(args: Seq<String>, o: Result<Reading, Refusal>, r: Result<CLIArgs, ArgError>) -> bool {
    match o {
        Ok(st) => r is Ok && {
            let c = r->Ok_0;
            &&& c.help == st.help
            &&& c.input_format == st.format
            &&& names(c.input_file, st.file, args)
            &&& names(c.output_file, st.output, args)
            &&& c.start_vertex == st.start
            &&& c.end_vertex == st.end
        },
        Err(Refusal::MissingInputFile) => r matches Err(ArgError::MissingInputFile),
        Err(Refusal::MultipleInputFormats) => r matches Err(ArgError::MultipleInputFormats),
        Err(Refusal::MissingFormatKey) => r matches Err(ArgError::MissingFormatKey),
        Err(Refusal::InvalidNumber) => r matches Err(ArgError::InvalidNumber(_)),
        Err(Refusal::MissingValue(k)) => r matches Err(ArgError::MissingFormatPath(s)) && s@ == args[k]@,
        Err(Refusal::UnknownFlag(k)) => r matches Err(ArgError::UnknownFlag(s)) && s@ == args[k]@,
    }
}

fn flag_kind(s: &Vec<char>) -> (r: Flag)
    ensures
        r == flag_of(s@),
{
    if s.len() == 2 && s[0] == '-' {
        let c = s[1];
        if c == 'h' {
            Flag::Help
        } else if c == 'e' {
            Flag::Format(InputFormat::Edges)
        } else if c == 'm' {
            Flag::Format(InputFormat::Matrix)
        } else if c == 'l' {
            Flag::Format(InputFormat::List)
        } else if c == 'o' {
            Flag::Output
        } else if c == 'n' {
            Flag::Start
        } else if c == 'd' {
            Flag::End
        } else {
            Flag::Unknown
        }
    } else {
        Flag::Unknown
    }
}

fn read_count(s: &String) -> (r: Option<usize>)
    ensures
        match count_value(s@, usize::MAX as nat) {
            Some(v) => r == Some(v as usize),
            None => r is None,
        },
{
    let cs = chars_of(s.as_str());
    assert(cs@.subrange(0, cs@.len() as int) =~= cs@);
    match parse_count(&cs, 0, cs.len(), usize::MAX as u64) {
        Some(v) => Some(v as usize),
        None => None,
    }
}

/// Reads the command line of the graph analysis.
pub fn parse_args(args: &Vec<String>) -> (r: Result<CLIArgs, ArgError>)
    ensures
        matches_reading(args@, read_args(arg_views(args@)), r),
{
    let ghost av = arg_views(args@);
    if args.len() == 0 {
        return Err(ArgError::MissingFormatKey);
    }
    let mut cfg = CLIArgs {
        help: false,
        input_format: None,
        input_file: None,
        output_file: None,
        start_vertex: None,
        end_vertex: None,
    };
    let ghost mut st = nothing_read();
    let mut i: usize = 0;
    while i < args.len()
        invariant
            av == arg_views(args@),
            i <= args@.len() + 1,
            read_from(av, 0, nothing_read()) == read_from(av, i as int, st),
            !st.help,
            cfg.help == st.help,
            cfg.input_format == st.format,
            names(cfg.input_file, st.file, args@),
            names(cfg.output_file, st.output, args@),
            cfg.start_vertex == st.start,
            cfg.end_vertex == st.end,
        decreases args@.len() - i,
    {
        let flag = chars_of(args[i].as_str());
        assert(av[i as int] == args@[i as int]@);
        match flag_kind(&flag) {
            Flag::Help => {
                cfg.help = true;
                proof { st = Reading { help: true, ..st }; }
                return Ok(cfg);
            },
            Flag::Unknown => {
                return Err(ArgError::UnknownFlag(args[i].clone()));
            },
            Flag::Format(f) => {
                if cfg.input_format.is_some() {
                    return Err(ArgError::MultipleInputFormats);
                }
                if i + 1 >= args.len() {
                    return Err(ArgError::MissingFormatPath(args[i].clone()));
                }
                cfg.input_format = Some(f);
                cfg.input_file = Some(args[i + 1].clone());
                proof { st = Reading { format: Some(f), file: Some(i + 1), ..st }; }
            },
            Flag::Output => {
                if i + 1 >= args.len() {
                    return Err(ArgError::MissingFormatPath(args[i].clone()));
                }
                cfg.output_file = Some(args[i + 1].clone());
                proof { st = Reading { output: Some(i + 1), ..st }; }
            },
            Flag::Start => {
                if i + 1 >= args.len() {
                    return Err(ArgError::MissingFormatPath(args[i].clone()));
                }
                assert(av[i + 1] == args@[i + 1]@);
                match read_count(&args[i + 1]) {
                    Some(v) => {
                        cfg.start_vertex = Some(v);
                        proof { st = Reading { start: Some(v), ..st }; }
                    },
                    None => {
                        return Err(ArgError::InvalidNumber("Failed to parse number".to_string()));
                    },
                }
            },
            Flag::End => {
                if i + 1 >= args.len() {
                    return Err(ArgError::MissingFormatPath(args[i].clone()));
                }
                assert(av[i + 1] == args@[i + 1]@);
                match read_count(&args[i + 1]) {
                    Some(v) => {
                        cfg.end_vertex = Some(v);
                        proof { st = Reading { end: Some(v), ..st }; }
                    },
                    None => {
                        return Err(ArgError::InvalidNumber("Failed to parse number".to_string()));
                    },
                }
            },
        }
        i += 2;
    }
    if cfg.input_format.is_none() {
        return Err(ArgError::MissingFormatKey);
    }
    if cfg.input_file.is_none() {
        return Err(ArgError::MissingInputFile);
    }
    Ok(cfg)
}

} // verus!
