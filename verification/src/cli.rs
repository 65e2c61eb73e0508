//! The command line and the interactive prompt: which command was asked for,
//! the values given to options, and what a line typed at the prompt means.
use vstd::prelude::*;
use vstd::string::StrSliceExecFns;

verus! {

/// True exactly when both strings hold the same characters.
fn str_eq(a: &str, b: &str) -> (r: bool)
    ensures
        r == (a@ == b@),
{
    a.to_owned() == b.to_owned()
}

/// The index of the first item equal to `x`, or the number of items if there is none.
pub open spec fn position_of(items: Seq<Seq<char>>, x: Seq<char>) -> nat
    decreases items.len(),
{
    if items.len() == 0 {
        0
    } else if items[0] == x {
        0
    } else {
        1 + position_of(items.drop_first(), x)
    }
}

/// The value given to option `flag`: the item right after its first occurrence, if any.
pub open spec fn option_value(items: Seq<Seq<char>>, flag: Seq<char>) -> Option<Seq<char>> {
    let p = position_of(items, flag);
    if p + 1 < items.len() {
        Some(items[(p + 1) as int])
    } else {
        None
    }
}

/// The characters of each argument.
pub open spec fn arg_texts(args: Seq<String>) -> Seq<Seq<char>> {
    args.map_values(|s: String| s@)
}

/// `position_of` is the first matching index.
pub proof fn lemma_position_of(items: Seq<Seq<char>>, x: Seq<char>, i: int)
    requires
        0 <= i <= items.len(),
        forall|j: int| 0 <= j < i ==> items[j] != x,
        i == items.len() || items[i] == x,
    ensures
        position_of(items, x) == i,
    decreases i,
{
    if i > 0 {
        let rest = items.drop_first();
        assert forall|j: int| 0 <= j < i - 1 implies rest[j] != x by {
            assert(rest[j] == items[j + 1]);
        }
        if i < items.len() {
            assert(rest[i - 1] == items[i]);
        }
        lemma_position_of(rest, x, i - 1);
    }
}

/// Returns the argument that follows the first occurrence of `flag`, if there is one.
pub fn get_arg(args: &[String], flag: &str) -> (r: Option<String>)
    ensures
        match r {
            Some(v) => option_value(arg_texts(args@), flag@) == Some(v@),
            None => option_value(arg_texts(args@), flag@) is None,
        },
{
    let ghost items = arg_texts(args@);
    let mut i: usize = 0;
    while i < args.len()
        invariant
            i <= args.len(),
            items == arg_texts(args@),
            items.len() == args.len(),
            forall|j: int| 0 <= j < i ==> items[j] != flag@,
        decreases args.len() - i,
    {
        if str_eq(args[i].as_str(), flag) {
            proof {
                lemma_position_of(items, flag@, i as int);
            }
            if i + 1 < args.len() {
                return Some(args[i + 1].clone());
            } else {
                return None;
            }
        }
        i = i + 1;
    }
    proof {
        lemma_position_of(items, flag@, i as int);
    }
    None
}

/// An ASCII decimal digit.
pub open spec fn is_digit(c: char) -> bool {
    '0' <= c && c <= '9'
}

/// Every character of `d` is a decimal digit.
pub open spec fn all_digits(d: Seq<char>) -> bool {
    forall|i: int| 0 <= i < d.len() ==> #[trigger] is_digit(d[i])
}

/// The text after one leading `+`, if there is one.
pub open spec fn without_plus(s: Seq<char>) -> Seq<char> {
    if s.len() > 0 && s[0] == '+' { s.drop_first() } else { s }
}

/// The number written by the decimal digits `d`.
pub open spec fn digits_value(d: Seq<char>) -> int
    decreases d.len(),
{
    if d.len() == 0 {
        0
    } else {
        digits_value(d.drop_last()) * 10 + (d.last() as int - '0' as int)
    }
}

/// How a `usize` is read from text: an optional `+` followed by one or more
/// decimal digits, whose value must fit in a `usize`; anything else is refused.
pub open spec fn decimal_usize(s: Seq<char>) -> Option<usize> {
    let d = without_plus(s);
    if d.len() > 0 && all_digits(d) && digits_value(d) <= usize::MAX {
        Some(digits_value(d) as usize)
    } else {
        None
    }
}

/// `<usize as FromStr>::from_str`, keeping only success: per its documentation the
/// text must be an optional `+` and then only the digits `0`-`9`, with a value
/// that fits; whitespace, other signs and other characters are errors.
#[verifier::external_body]
fn parse_usize(s: &str) -> (r: Option<usize>)
    ensures
        r == decimal_usize(s@),
{
    s.parse::<usize>().ok()
}

/// The numeric value of option `flag`, or `default` when the option is absent
/// or its value is not a number.
pub open spec fn usize_option(items: Seq<Seq<char>>, flag: Seq<char>, default: usize) -> usize {
    match option_value(items, flag) {
        Some(v) => match decimal_usize(v) {
            Some(x) => x,
            None => default,
        },
        None => default,
    }
}

/// Reads option `flag` as a number, falling back to `default`.
pub fn get_usize_arg(args: &[String], flag: &str, default: usize) -> (r: usize)
    ensures
        r == usize_option(arg_texts(args@), flag@, default),
{
    match get_arg(args, flag) {
        Some(v) => match parse_usize(v.as_str()) {
            Some(x) => x,
            None => default,
        },
        None => default,
    }
}

/// What the program was asked to do.
#[derive(Clone, Copy, Debug, PartialEq, Eq, Structural)]
pub enum Command {
    Train,
    Generate,
    Help,
    Unknown,
}

/// The command named by the first argument after the program name; no
/// argument, `help`, `--help` and `-h` ask for help.
pub open spec fn command_spec(items: Seq<Seq<char>>) -> Command {
    if items.len() < 2 {
        Command::Help
    } else if items[1] == "train"@ {
        Command::Train
    } else if items[1] == "generate"@ {
        Command::Generate
    } else if items[1] == "help"@ || items[1] == "--help"@ || items[1] == "-h"@ {
        Command::Help
    } else {
        Command::Unknown
    }
}

/// Determines the command from the program arguments.
pub fn command_of(args: &[String]) -> (c: Command)
    ensures
        c == command_spec(arg_texts(args@)),
{
    if args.len() < 2 {
        return Command::Help;
    }
    let name = args[1].as_str();
    if str_eq(name, "train") {
        Command::Train
    } else if str_eq(name, "generate") {
        Command::Generate
    } else if str_eq(name, "help") || str_eq(name, "--help") || str_eq(name, "-h") {
        Command::Help
    } else {
        Command::Unknown
    }
}

/// What a (trimmed) line typed at the interactive prompt asks for.
#[derive(Debug)]
pub enum PromptInput {
    /// An empty line: ask again.
    Skip,
    /// `quit`: leave.
    Quit,
    /// `temp X`: set the sampling temperature to the number written `X`.
    Temperature(String),
    /// Anything else: generate text from this prompt.
    Generate,
}

/// The meaning of a line typed at the prompt.
pub open spec fn prompt_input_matches(line: Seq<char>, p: PromptInput) -> bool {
    if line.len() == 0 {
        p is Skip
    } else if line == "quit"@ {
        p is Quit
    } else if line.len() >= 5 && line.subrange(0, 5) == "temp "@ {
        p matches PromptInput::Temperature(arg) && arg@ == line.subrange(5, line.len() as int)
    } else {
        p is Generate
    }
}

/// Interprets a trimmed line typed at the interactive prompt.
pub fn classify_input(line: &str) -> (p: PromptInput)
    ensures
        prompt_input_matches(line@, p),
{
    let n = line.unicode_len();
    if n == 0 {
        return PromptInput::Skip;
    }
    if str_eq(line, "quit") {
        return PromptInput::Quit;
    }
    if n >= 5 {
        let head = line.substring_char(0, 5);
        if str_eq(head, "temp ") {
            let rest = line.substring_char(5, n);
            return PromptInput::Temperature(rest.to_owned());
        }
    }
    PromptInput::Generate
}

/// An option whose value is a decimal number that fits in a `usize` gives that
/// number, whatever the default; an absent option, or one whose value is not
/// such a number, gives the default.
pub proof fn lemma_usize_option_value(items: Seq<Seq<char>>, flag: Seq<char>, default: usize)
    ensures
        option_value(items, flag) is Some && decimal_usize(option_value(items, flag)->0) is Some
            ==> usize_option(items, flag, default) == decimal_usize(option_value(items, flag)->0)->0,
        option_value(items, flag) is None ==> usize_option(items, flag, default) == default,
        option_value(items, flag) matches Some(v) && decimal_usize(v) is None
            ==> usize_option(items, flag, default) == default,
{
}

/// Decimal digits write a number that is not negative.
proof fn lemma_digits_value_nonneg(d: Seq<char>)
    requires
        all_digits(d),
    ensures
        digits_value(d) >= 0,
    decreases d.len(),
{
    if d.len() > 0 {
        let rest = d.drop_last();
        assert forall|i: int| 0 <= i < rest.len() implies #[trigger] is_digit(rest[i]) by {
            assert(rest[i] == d[i]);
        }
        lemma_digits_value_nonneg(rest);
        assert(is_digit(d[d.len() - 1]));
    }
}

/// A single decimal digit is read as its value.
pub proof fn lemma_decimal_single_digit(c: char)
    requires
        is_digit(c),
    ensures
        decimal_usize(seq![c]) == Some((c as int - '0' as int) as usize),
{
    let d = seq![c];
    assert(d.drop_last() =~= Seq::<char>::empty());
    assert(digits_value(Seq::<char>::empty()) == 0);
    assert(d.last() == c);
    assert(digits_value(d) == c as int - '0' as int);
    assert(without_plus(d) == d);
    assert(all_digits(d));
}

/// One more digit after a number multiplies it by ten and adds the digit, as
/// long as the value still fits.
pub proof fn lemma_decimal_push_digit(d: Seq<char>, c: char, x: usize)
    requires
        d.len() > 0,
        d[0] != '+',
        decimal_usize(d) == Some(x),
        is_digit(c),
        10 * x + (c as int - '0' as int) <= usize::MAX,
    ensures
        decimal_usize(d.push(c)) == Some((10 * x + (c as int - '0' as int)) as usize),
{
    let e = d.push(c);
    assert(without_plus(d) == d);
    assert(all_digits(d));
    lemma_digits_value_nonneg(d);
    assert(digits_value(d) == x);
    assert(e.drop_last() =~= d);
    assert(e.last() == c);
    assert(e[0] == d[0]);
    assert forall|i: int| 0 <= i < e.len() implies #[trigger] is_digit(e[i]) by {
        if i < d.len() {
            assert(e[i] == d[i]);
            assert(is_digit(d[i]));
        }
    }
    assert(without_plus(e) == e);
    assert(all_digits(e));
    assert(digits_value(e) == digits_value(d) * 10 + (c as int - '0' as int));
}

/// A leading `+` does not change the number read.
pub proof fn lemma_decimal_plus_sign(d: Seq<char>)
    requires
        d.len() > 0,
        d[0] != '+',
    ensures
        decimal_usize(seq!['+'] + d) == decimal_usize(d),
{
    let e = seq!['+'] + d;
    assert(e[0] == '+');
    assert(e.drop_first() =~= d);
    assert(without_plus(e) == d);
    assert(without_plus(d) == d);
}

/// The command depends on the first argument after the program name alone:
/// the arguments that follow it never change it.
pub proof fn lemma_command_ignores_later_arguments(items: Seq<Seq<char>>, later: Seq<Seq<char>>)
    requires
        items.len() >= 2,
    ensures
        command_spec(items + later) == command_spec(items),
{
    assert((items + later)[1] == items[1]);
}

/// Each command is named by its word: `train` trains, `generate` generates,
/// `help`, `--help` and `-h` ask for help, and so does a missing command.
pub proof fn lemma_command_names(items: Seq<Seq<char>>)
    ensures
        items.len() < 2 ==> command_spec(items) == Command::Help,
        items.len() >= 2 && items[1] == "train"@ ==> command_spec(items) == Command::Train,
        items.len() >= 2 && items[1] == "generate"@ ==> command_spec(items) == Command::Generate,
        items.len() >= 2 && (items[1] == "help"@ || items[1] == "--help"@ || items[1] == "-h"@)
            ==> command_spec(items) == Command::Help,
{
    reveal_strlit("train");
    reveal_strlit("generate");
    reveal_strlit("help");
    reveal_strlit("--help");
    reveal_strlit("-h");
    if items.len() >= 2 && items[1] == "generate"@ {
        assert(items[1].len() != "train"@.len());
    }
    if items.len() >= 2 && (items[1] == "help"@ || items[1] == "--help"@ || items[1] == "-h"@) {
        assert(items[1].len() != "train"@.len() || items[1] != "train"@);
        assert(items[1] != "generate"@) by {
            assert(items[1].len() != "generate"@.len());
        }
        if items[1] == "help"@ {
            assert(items[1][0] != "train"@[0]);
        }
    }
}

} // verus!
