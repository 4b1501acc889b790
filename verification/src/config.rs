//! What a caller asks for: split or put together, which file, and with
//! which chunk size.

use vstd::prelude::*;
use vstd::string::StrSliceExecFns;
use vstd::string::StringExecFns;

verus! {

/// The options of a run.
#[derive(Debug, Clone, Copy, PartialEq, Eq)]
pub struct Options {
    /// The number of parts to make; not used by the pipelines.
    pub count_parts: Option<u8>,
    /// The chunk size in bytes; the default where there is none.
    pub size_parts: Option<usize>,
}

impl Default for Options {
    /// No option is set.
    fn default() -> (options: Options)
        ensures
            options == (Options { count_parts: None, size_parts: None }),
    {
        Options { count_parts: None, size_parts: None }
    }
}

/// What a configuration says, as mathematical values.
pub ghost struct ConfigView {
    /// `'e'` to split, `'d'` to put together.
    pub method: char,
    /// The path of the source file or of the metadata file.
    pub path: Seq<char>,
    /// The options of the run.
    pub options: Options,
}

/// What to do, and on which file.
#[derive(Debug, Clone, PartialEq, Eq)]
pub struct Config {
    /// `'e'` to split, `'d'` to put together.
    pub method: char,
    /// The path of the source file or of the metadata file.
    pub path: String,
    /// The options of the run.
    pub options: Options,
}

impl View for Config {
    type V = ConfigView;

    open spec fn view(&self) -> ConfigView {
        ConfigView { method: self.method, path: self.path@, options: self.options }
    }
}

/// Why a list of arguments gives no configuration.
#[derive(Debug, Clone, Copy, PartialEq, Eq, Structural)]
pub enum ArgsError {
    /// Neither `-e` nor `-d` is followed by a path.
    NoMethod,
    /// What follows `-n` is not a chunk size: a decimal number of at least
    /// 1 that the machine can hold, with or without a `+` in front.
    InvalidSize,
}

/// The configuration for `method` and `path`, with no option set.
pub open spec fn plain_config(method: char, path: Seq<char>) -> ConfigView {
    ConfigView { method, path, options: Options { count_parts: None, size_parts: None } }
}

/// The value of a decimal digit.
pub open spec fn digit_value(c: char) -> Option<nat> {
    if '0' <= c <= '9' {
        Some((c as nat - 48) as nat)
    } else {
        None
    }
}

/// The number that a text of decimal digits spells. The empty text and a
/// text with another character spell none.
pub open spec fn decimal_value(s: Seq<char>) -> Option<nat>
    decreases s.len(),
{
    if s.len() == 0 {
        None
    } else if s.len() == 1 {
        digit_value(s[0])
    } else {
        match (decimal_value(s.drop_last()), digit_value(s.last())) {
            (Some(front), Some(last)) => Some(front * 10 + last),
            _ => None,
        }
    }
}

/// A text without the `+` that may stand in front of a number.
pub open spec fn unsigned(s: Seq<char>) -> Seq<char> {
    if s.len() > 0 && s[0] == '+' {
        s.skip(1)
    } else {
        s
    }
}

/// The chunk size that a text spells: a decimal number from 1 to the
/// largest `usize`, with or without a `+` in front.
pub open spec fn size_value(s: Seq<char>) -> Option<usize> {
    match decimal_value(unsigned(s)) {
        Some(value) => if 1 <= value <= usize::MAX {
            Some(value as usize)
        } else {
            None
        },
        None => None,
    }
}

/// Where a text spells a number, each of its beginnings spells one too,
/// and none that is larger.
pub proof fn lemma_decimal_value_front(s: Seq<char>, len: int)
    requires
        1 <= len <= s.len(),
        decimal_value(s) is Some,
    ensures
        decimal_value(s.take(len)) is Some,
        decimal_value(s.take(len))->0 <= decimal_value(s)->0,
    decreases s.len(),
{
    if len == s.len() {
        assert(s.take(len) =~= s);
    } else {
        let front = s.drop_last();
        assert(front.take(len) =~= s.take(len));
        lemma_decimal_value_front(front, len);
    }
}

/// Reads a decimal number that the machine can hold.
pub fn parse_decimal(text: &str) -> (number: Option<usize>)
    ensures
        match decimal_value(text@) {
            Some(value) => if value <= usize::MAX {
                number == Some(value as usize)
            } else {
                number is None
            },
            None => number is None,
        },
{
    let len = text.unicode_len();
    if len == 0 {
        return None;
    }
    let mut value: usize = 0;
    let mut i: usize = 0;
    while i < len
        invariant
            i <= len,
            len == text@.len(),
            i == 0 ==> value == 0,
            i > 0 ==> decimal_value(text@.take(i as int)) == Some(value as nat),
        decreases len - i,
    {
        let c = text.get_char(i);
        let ghost next = text@.take(i + 1);
        proof {
            assert(next.drop_last() =~= text@.take(i as int));
            assert(next.last() == c);
            if decimal_value(text@) is Some {
                lemma_decimal_value_front(text@, i + 1);
            }
        }
        if c < '0' || c > '9' {
            assert(decimal_value(next) is None);
            return None;
        }
        let d: usize = (c as u32 - 48) as usize;
        let shifted = match value.checked_mul(10) {
            Some(shifted) => shifted,
            None => {
                return None;
            },
        };
        value = match shifted.checked_add(d) {
            Some(sum) => sum,
            None => {
                return None;
            },
        };
        i += 1;
    }
    assert(text@.take(len as int) =~= text@);
    Some(value)
}

/// Reads a chunk size: a decimal number from 1 to the largest `usize`,
/// with or without a `+` in front.
pub fn parse_size(text: &str) -> (size: Option<usize>)
    ensures
        size == size_value(text@),
{
    let len = text.unicode_len();
    let digits = if len > 0 && text.get_char(0) == '+' {
        text.substring_char(1, len)
    } else {
        text
    };
    assert(digits@ =~= unsigned(text@));
    match parse_decimal(digits) {
        None => None,
        Some(value) => if value == 0 {
            None
        } else {
            Some(value)
        },
    }
}

/// What one argument does to the configuration read so far, where `next`
/// is the argument behind it, if there is one.
pub open spec fn args_step(
    so_far: Option<ConfigView>,
    arg: Seq<char>,
    next: Option<Seq<char>>,
) -> Result<Option<ConfigView>, ArgsError> {
    match next {
        None => Ok(so_far),
        Some(value) => {
            if arg == seq!['-', 'e'] {
                Ok(Some(plain_config('e', value)))
            } else if arg == seq!['-', 'd'] {
                Ok(Some(plain_config('d', value)))
            } else if arg == seq!['-', 'n'] {
                match size_value(value) {
                    None => Err(ArgsError::InvalidSize),
                    Some(size) => match so_far {
                        None => Ok(None),
                        Some(config) => Ok(
                            Some(
                                ConfigView {
                                    method: config.method,
                                    path: config.path,
                                    options: Options {
                                        count_parts: config.options.count_parts,
                                        size_parts: Some(size),
                                    },
                                },
                            ),
                        ),
                    },
                }
            } else {
                Ok(so_far)
            }
        },
    }
}

/// The configuration that the first `count` arguments give.
pub open spec fn args_front(args: Seq<Seq<char>>, count: nat) -> Result<
    Option<ConfigView>,
    ArgsError,
>
    decreases count,
{
    if count == 0 {
        Ok(None)
    } else {
        match args_front(args, (count - 1) as nat) {
            Err(e) => Err(e),
            Ok(so_far) => args_step(
                so_far,
                args[count - 1],
                if count < args.len() {
                    Some(args[count as int])
                } else {
                    None
                },
            ),
        }
    }
}

/// The configuration that a list of arguments gives.
///
/// The arguments are read from left to right. `-e` and `-d`, each with
/// the argument behind it as the path, say what to do; the last of them
/// counts. `-n` with a chunk size behind it sets the chunk size of the
/// configuration read so far. Every other argument says nothing.
pub open spec fn parse_args(args: Seq<Seq<char>>) -> Result<ConfigView, ArgsError> {
    match args_front(args, args.len()) {
        Err(e) => Err(e),
        Ok(None) => Err(ArgsError::NoMethod),
        Ok(Some(config)) => Ok(config),
    }
}

/// The views of a list of arguments.
pub open spec fn args_view(args: Seq<String>) -> Seq<Seq<char>> {
    Seq::new(args.len(), |i: int| args[i]@)
}

/// Once an argument has been refused, more arguments change nothing.
proof fn lemma_args_error_stays(args: Seq<Seq<char>>, at: nat, count: nat)
    requires
        at <= count,
        args_front(args, at) is Err,
    ensures
        args_front(args, count) == args_front(args, at),
    decreases count,
{
    if at < count {
        lemma_args_error_stays(args, at, (count - 1) as nat);
    }
}

impl Config {
    /// The configuration for `method` and `path`, with no option set.
    pub fn new(method: char, path: &str) -> (config: Config)
        ensures
            config@ == plain_config(method, path@),
    {
        Config { method, path: String::from_str(path), options: Options::default() }
    }

    /// Reads the configuration from the arguments of the program.
    pub fn new_from_env_args(args: &Vec<String>) -> (parsed: Result<Config, ArgsError>)
        ensures
            match parse_args(args_view(args@)) {
                Err(e) => parsed == Err::<Config, _>(e),
                Ok(view) => parsed matches Ok(config) && config@ == view,
            },
    {
        proof {
            reveal_strlit("-e");
            reveal_strlit("-d");
            reveal_strlit("-n");
        }
        let flag_e = String::from_str("-e");
        let flag_d = String::from_str("-d");
        let flag_n = String::from_str("-n");
        let ghost views = args_view(args@);
        let mut config: Option<Config> = None;
        let mut i: usize = 0;
        while i < args.len()
            invariant
                i <= args@.len(),
                views == args_view(args@),
                flag_e@ == seq!['-', 'e'],
                flag_d@ == seq!['-', 'd'],
                flag_n@ == seq!['-', 'n'],
                match args_front(views, i as nat) {
                    Err(e) => false,
                    Ok(None) => config is None,
                    Ok(Some(view)) => config matches Some(c) && c@ == view,
                },
            decreases args@.len() - i,
        {
            assert(views[i as int] == args@[i as int]@);
            if i + 1 < args.len() {
                assert(views[i + 1] == args@[i + 1]@);
                let value = &args[i + 1];
                if args[i] == flag_e {
                    config = Some(Config::new('e', value.as_str()));
                } else if args[i] == flag_d {
                    config = Some(Config::new('d', value.as_str()));
                } else if args[i] == flag_n {
                    match parse_size(value.as_str()) {
                        None => {
                            proof {
                                lemma_args_error_stays(views, (i + 1) as nat, views.len());
                            }
                            return Err(ArgsError::InvalidSize);
                        },
                        Some(size) => {
                            config = match config {
                                None => None,
                                Some(c) => Some(
                                    Config {
                                        method: c.method,
                                        path: c.path,
                                        options: Options {
                                            count_parts: c.options.count_parts,
                                            size_parts: Some(size),
                                        },
                                    },
                                ),
                            };
                        },
                    }
                }
            }
            i += 1;
        }
        match config {
            None => Err(ArgsError::NoMethod),
            Some(config) => Ok(config),
        }
    }
}

impl Default for Config {
    /// No method, the empty path, no option set.
    fn default() -> (config: Config)
        ensures
            config@ == plain_config('_', Seq::empty()),
    {
        Config { method: '_', path: String::new(), options: Options::default() }
    }
}

} // verus!
