use vstd::prelude::*;
use vstd::string::*;
use vstd::utf8::*;

verus! {

/// What the command line asks for.
#[derive(Debug, Clone, PartialEq, Eq)]
pub struct Config {
    pub help: bool,
    pub version: bool,
    pub skip_ui: bool,
    pub keep_order: bool,
    pub lines: usize,
    pub plain: bool,
    pub query: String,
}

/// A configuration as mathematical values; the query as its bytes.
pub struct ConfigView {
    pub help: bool,
    pub version: bool,
    pub skip_ui: bool,
    pub keep_order: bool,
    pub lines: nat,
    pub plain: bool,
    pub query: Seq<u8>,
}

impl Config {
    pub open spec fn view(&self) -> ConfigView {
        ConfigView {
            help: self.help,
            version: self.version,
            skip_ui: self.skip_ui,
            keep_order: self.keep_order,
            lines: self.lines as nat,
            plain: self.plain,
            query: encode_utf8(self.query@),
        }
    }
}

pub open spec fn default_view() -> ConfigView {
    ConfigView {
        help: false,
        version: false,
        skip_ui: false,
        keep_order: false,
        lines: 10,
        plain: false,
        query: seq![],
    }
}

impl Default for Config {
    fn default() -> (r: Self)
        ensures
            r.view() == default_view(),
    {
        let r = Config {
            help: false,
            version: false,
            skip_ui: false,
            keep_order: false,
            lines: 10,
            plain: false,
            query: String::new(),
        };
        proof {
            assert(encode_utf8(Seq::<char>::empty()) =~= Seq::<u8>::empty());
        }
        r
    }
}


/// Why a command line was refused; each carries the argument at fault.
#[derive(Debug, Clone, PartialEq, Eq)]
pub enum ConfigError {
    /// An option that takes a value came last.
    MissingArgument(String),
    /// The value of `--lines` is not a count.
    InvalidNumber(String),
    /// The value of `--lines` is zero.
    ZeroLines,
    /// An argument that is no option.
    Unrecognized(String),
}

/// A refusal as mathematical values.
pub enum Refusal {
    MissingArgument(Seq<u8>),
    InvalidNumber(Seq<u8>),
    ZeroLines,
    Unrecognized(Seq<u8>),
}

impl ConfigError {
    pub open spec fn view(&self) -> Refusal {
        match self {
            ConfigError::MissingArgument(a) => Refusal::MissingArgument(encode_utf8(a@)),
            ConfigError::InvalidNumber(a) => Refusal::InvalidNumber(encode_utf8(a@)),
            ConfigError::ZeroLines => Refusal::ZeroLines,
            ConfigError::Unrecognized(a) => Refusal::Unrecognized(encode_utf8(a@)),
        }
    }
}

/// Whether `arg` is `-<short>` or `--<long>`.
pub open spec fn is_option(arg: Seq<u8>, short: u8, long: Seq<u8>) -> bool {
    arg == seq![45u8, short] || arg == seq![45u8, 45u8] + long
}

pub open spec fn long_help() -> Seq<u8> {
    seq![104u8, 101, 108, 112]
}

pub open spec fn long_version() -> Seq<u8> {
    seq![118u8, 101, 114, 115, 105, 111, 110]
}

pub open spec fn long_keep_order() -> Seq<u8> {
    seq![107u8, 101, 101, 112, 45, 111, 114, 100, 101, 114]
}

pub open spec fn long_plain() -> Seq<u8> {
    seq![112u8, 108, 97, 105, 110]
}

pub open spec fn long_lines() -> Seq<u8> {
    seq![108u8, 105, 110, 101, 115]
}

pub open spec fn long_filter() -> Seq<u8> {
    seq![102u8, 105, 108, 116, 101, 114]
}

pub open spec fn is_digit(b: u8) -> bool {
    48 <= b <= 57
}

/// The number that a string of decimal digits writes.
pub open spec fn digits_value(s: Seq<u8>) -> nat
    decreases s.len(),
{
    if s.len() == 0 {
        0
    } else {
        digits_value(s.drop_last()) * 10 + (s.last() - 48) as nat
    }
}

/// The digits of a count, after an optional `+`.
pub open spec fn count_digits(s: Seq<u8>) -> Seq<u8> {
    if s.len() > 0 && s[0] == 43 {
        s.skip(1)
    } else {
        s
    }
}

/// The count that `s` writes in decimal, if it writes one that fits a `usize`.
pub open spec fn count_of(s: Seq<u8>) -> Option<nat> {
    let d = count_digits(s);
    if d.len() > 0 && (forall|i: int| 0 <= i < d.len() ==> is_digit(#[trigger] d[i])) && digits_value(d) <= usize::MAX {
        Some(digits_value(d))
    } else {
        None
    }
}

/// The outcome of reading the arguments from `idx` on, into `c`.
pub open spec fn parse_from(args: Seq<Seq<u8>>, idx: int, c: ConfigView) -> Result<ConfigView, Refusal>
    decreases args.len() - idx,
{
    if idx < 0 || idx >= args.len() {
        Ok(c)
    } else {
        let a = args[idx];
        if is_option(a, 104, long_help()) {
            Ok(ConfigView { help: true, ..c })
        } else if is_option(a, 118, long_version()) {
            Ok(ConfigView { version: true, ..c })
        } else if is_option(a, 107, long_keep_order()) {
            parse_from(args, idx + 1, ConfigView { keep_order: true, ..c })
        } else if is_option(a, 112, long_plain()) {
            parse_from(args, idx + 1, ConfigView { plain: true, ..c })
        } else if is_option(a, 108, long_lines()) {
            if idx + 1 < args.len() {
                match count_of(args[idx + 1]) {
                    None => Err(Refusal::InvalidNumber(args[idx + 1])),
                    Some(n) => if n == 0 {
                        Err(Refusal::ZeroLines)
                    } else {
                        parse_from(args, idx + 2, ConfigView { lines: n, ..c })
                    },
                }
            } else {
                Err(Refusal::MissingArgument(a))
            }
        } else if is_option(a, 102, long_filter()) {
            if idx + 1 < args.len() {
                parse_from(args, idx + 2, ConfigView { skip_ui: true, query: args[idx + 1], ..c })
            } else {
                Err(Refusal::MissingArgument(a))
            }
        } else {
            Err(Refusal::Unrecognized(a))
        }
    }
}

pub open spec fn args_bytes(args: Seq<String>) -> Seq<Seq<u8>> {
    args.map_values(|a: String| encode_utf8(a@))
}

/// What a command line asks for; the first argument names the program.
pub open spec fn parsed(args: Seq<String>) -> Result<ConfigView, Refusal> {
    parse_from(args_bytes(args), 1, default_view())
}

fn option_is(arg: &[u8], short: u8, long: &[u8]) -> (r: bool)
    ensures
        r == is_option(arg@, short, long@),
{
    if arg.len() == 2 && arg[0] == 45 && arg[1] == short {
        assert(arg@ =~= seq![45u8, short]);
        return true;
    }
    if arg.len() < 2 || arg.len() - 2 != long.len() || arg[0] != 45 || arg[1] != 45 {
        return false;
    }
    let mut i: usize = 0;
    while i < long.len()
        invariant
            arg@.len() == long@.len() + 2,
            arg@.len() <= usize::MAX,
            i <= long@.len(),
            forall|j: int| 0 <= j < i ==> arg@[j + 2] == long@[j],
        decreases long@.len() - i,
    {
        if arg[i + 2] != long[i] {
            proof {
                assert((seq![45u8, 45u8] + long@)[i + 2] == long@[i as int]);
            }
            return false;
        }
        i = i + 1;
    }
    assert(arg@ =~= seq![45u8, 45u8] + long@);
    true
}

proof fn lemma_digits_grow(s: Seq<u8>, i: int)
    requires
        0 <= i <= s.len(),
    ensures
        digits_value(s) >= digits_value(s.take(i)),
    decreases s.len(),
{
    if i < s.len() {
        assert(s.drop_last().take(i) =~= s.take(i));
        lemma_digits_grow(s.drop_last(), i);
    } else {
        assert(s.take(i) =~= s);
    }
}

/// Reads a count written in decimal, with an optional leading `+`.
fn parse_count(s: &[u8]) -> (r: Option<usize>)
    ensures
        match r {
            Some(n) => count_of(s@) == Some(n as nat),
            None => count_of(s@) is None,
        },
{
    let ghost d = count_digits(s@);
    let start: usize = if s.len() > 0 && s[0] == 43 { 1 } else { 0 };
    assert(d =~= s@.skip(start as int));
    if start == s.len() {
        return None;
    }
    let mut v: usize = 0;
    let mut i: usize = start;
    while i < s.len()
        invariant
            d == s@.skip(start as int),
            d == count_digits(s@),
            start <= i <= s@.len(),
            forall|j: int| 0 <= j < i - start ==> is_digit(#[trigger] d[j]),
            v == digits_value(d.take(i - start)),
        decreases s@.len() - i,
    {
        let b = s[i];
        if b < 48 || b > 57 {
            proof {
                assert(d[i - start] == b);
                assert(!is_digit(d[i - start]));
            }
            return None;
        }
        let x = (b - 48) as usize;
        proof {
            assert(d.take(i - start + 1).drop_last() =~= d.take(i - start));
            assert(d.take(i - start + 1).last() == b);
        }
        if v > (usize::MAX - x) / 10 {
            proof {
                lemma_digits_grow(d, i - start + 1);
                assert(v * 10 + x > usize::MAX) by (nonlinear_arith)
                    requires v > (usize::MAX - x) / 10, x <= 9;
                assert(digits_value(d.take(i - start + 1)) == v * 10 + x);
                assert(digits_value(d) > usize::MAX);
            }
            return None;
        }
        assert(v * 10 + x <= usize::MAX) by (nonlinear_arith)
            requires v <= (usize::MAX - x) / 10, x <= 9;
        v = v * 10 + x;
        i = i + 1;
    }
    proof {
        assert(d.take(i - start) =~= d);
    }
    Some(v)
}


impl Config {
    /// Reads a command line; the first argument names the program. Reading
    /// stops at `-h`/`--help` and at `-v`/`--version`.
    pub fn parse(args: &[String]) -> (r: Result<Config, ConfigError>)
        ensures
            match r {
                Ok(c) => parsed(args@) == Ok::<ConfigView, Refusal>(c.view()),
                Err(e) => parsed(args@) == Err::<ConfigView, Refusal>(e.view()),
            },
    {
        let help: [u8; 4] = [104, 101, 108, 112];
        let version: [u8; 7] = [118, 101, 114, 115, 105, 111, 110];
        let keep_order: [u8; 10] = [107, 101, 101, 112, 45, 111, 114, 100, 101, 114];
        let plain: [u8; 5] = [112, 108, 97, 105, 110];
        let lines: [u8; 5] = [108, 105, 110, 101, 115];
        let filter: [u8; 6] = [102, 105, 108, 116, 101, 114];
        proof {
            assert(help@ =~= long_help());
            assert(version@ =~= long_version());
            assert(keep_order@ =~= long_keep_order());
            assert(plain@ =~= long_plain());
            assert(lines@ =~= long_lines());
            assert(filter@ =~= long_filter());
        }
        let ghost all = args_bytes(args@);
        let mut config = Config::default();
        let mut idx: usize = 1;
        while idx < args.len()
            invariant
                all == args_bytes(args@),
                help@ == long_help(),
                version@ == long_version(),
                keep_order@ == long_keep_order(),
                plain@ == long_plain(),
                lines@ == long_lines(),
                filter@ == long_filter(),
                1 <= idx,
                parsed(args@) == parse_from(all, idx as int, config.view()),
            decreases args@.len() - idx,
        {
            let a = args[idx].as_str().as_bytes();
            proof {
                assert(a@ == all[idx as int]);
            }
            if option_is(a, 104, &help) {
                config.help = true;
                return Ok(config);
            } else if option_is(a, 118, &version) {
                config.version = true;
                return Ok(config);
            } else if option_is(a, 107, &keep_order) {
                config.keep_order = true;
                idx = idx + 1;
            } else if option_is(a, 112, &plain) {
                config.plain = true;
                idx = idx + 1;
            } else if option_is(a, 108, &lines) {
                if idx + 1 < args.len() {
                    let value = args[idx + 1].as_str().as_bytes();
                    proof {
                        assert(value@ == all[idx + 1]);
                    }
                    match parse_count(value) {
                        None => {
                            return Err(ConfigError::InvalidNumber(args[idx + 1].clone()));
                        },
                        Some(n) => {
                            if n == 0 {
                                return Err(ConfigError::ZeroLines);
                            }
                            config.lines = n;
                            idx = idx + 2;
                        },
                    }
                } else {
                    return Err(ConfigError::MissingArgument(args[idx].clone()));
                }
            } else if option_is(a, 102, &filter) {
                if idx + 1 < args.len() {
                    config.skip_ui = true;
                    config.query = args[idx + 1].clone();
                    idx = idx + 2;
                } else {
                    return Err(ConfigError::MissingArgument(args[idx].clone()));
                }
            } else {
                return Err(ConfigError::Unrecognized(args[idx].clone()));
            }
        }
        Ok(config)
    }
}

} // verus!
