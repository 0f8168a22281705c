//! Format strings: text in which `%s` and its like stand for arguments.
use crate::wrappers::push_char;
use vstd::prelude::*;
use vstd::string::{StrSliceExecFns, StringExecFns};

verus! {

/// Why a format string and its arguments do not go together.
#[derive(Debug, Clone, Copy, PartialEq, Eq, Structural)]
pub enum FormatError {
    /// The string ends with a `%` that starts a specifier.
    EndsInSpecifier,
    /// The string has more specifiers than there are arguments.
    NotEnoughArguments,
    /// There are more arguments than the string has specifiers.
    TooManyArguments,
}

impl FormatError {
    /// The error in words.
    pub fn message(&self) -> (text: &'static str)
        ensures
            text@ == match self {
                FormatError::EndsInSpecifier => "Format string ends in middle of format specifier"@,
                FormatError::NotEnoughArguments => "Not enough arguments for format string"@,
                FormatError::TooManyArguments => "Too many arguments for format string"@,
            },
    {
        match self {
            FormatError::EndsInSpecifier => "Format string ends in middle of format specifier",
            FormatError::NotEnoughArguments => "Not enough arguments for format string",
            FormatError::TooManyArguments => "Too many arguments for format string",
        }
    }
}

/// `text` put before the outcome of formatting what follows it.
pub open spec fn after_text(
    text: Seq<char>,
    rest: Result<Seq<char>, FormatError>,
) -> Result<Seq<char>, FormatError> {
    match rest {
        Ok(tail) => Ok(text + tail),
        Err(e) => Err(e),
    }
}

/// The outcome of formatting `string` with `args`, where `escaped` says that
/// the character before `string` was a backslash that escapes its first
/// character. A `%` that is not escaped starts a specifier of two
/// characters: `%%` stands for a `%`, and any other stands for the next
/// argument. Everything else, backslashes too, stands for itself.
pub open spec fn formatted(string: Seq<char>, args: Seq<Seq<char>>, escaped: bool) -> Result<
    Seq<char>,
    FormatError,
>
    decreases string.len(),
{
    if string.len() == 0 {
        if args.len() == 0 {
            Ok(Seq::empty())
        } else {
            Err(FormatError::TooManyArguments)
        }
    } else if escaped || string[0] != '%' {
        after_text(
            seq![string[0]],
            formatted(string.drop_first(), args, !escaped && string[0] == '\\'),
        )
    } else if string.len() == 1 {
        Err(FormatError::EndsInSpecifier)
    } else if string[1] == '%' {
        after_text(seq!['%'], formatted(string.subrange(2, string.len() as int), args, false))
    } else if args.len() == 0 {
        Err(FormatError::NotEnoughArguments)
    } else {
        after_text(
            args[0],
            formatted(string.subrange(2, string.len() as int), args.drop_first(), false),
        )
    }
}

/// The texts of a list of strings.
pub open spec fn texts(args: Seq<String>) -> Seq<Seq<char>> {
    args.map_values(|arg: String| arg@)
}

/// Formats `string`: each specifier other than `%%` is replaced by the next
/// of `args`, and `%%` by a `%`. Fails where the string ends inside a
/// specifier, or where the number of arguments is not that of the
/// specifiers.
pub fn format(string: &str, args: &Vec<String>) -> (result: Result<String, FormatError>)
    ensures
        match result {
            Ok(text) => formatted(string@, texts(args@), false) == Ok::<
                Seq<char>,
                FormatError,
            >(text@),
            Err(e) => formatted(string@, texts(args@), false) == Err::<Seq<char>, FormatError>(e),
        },
{
    let ghost all = texts(args@);
    let mut result = String::new();
    let len = string.unicode_len();
    let mut i: usize = 0;
    let mut used: usize = 0;
    let mut escaped = false;
    proof {
        assert(string@.subrange(0, len as int) =~= string@);
        assert(all.subrange(0, all.len() as int) =~= all);
    }
    while i < len
        invariant
            i <= len == string@.len(),
            used <= args@.len(),
            all == texts(args@),
            formatted(string@, all, false) == after_text(
                result@,
                formatted(
                    string@.subrange(i as int, len as int),
                    all.subrange(used as int, all.len() as int),
                    escaped,
                ),
            ),
        decreases len - i,
    {
        let ghost rest = string@.subrange(i as int, len as int);
        let ghost left = all.subrange(used as int, all.len() as int);
        let ghost done = result@;
        let c = string.get_char(i);
        assert(rest[0] == c);
        if escaped || c != '%' {
            push_char(&mut result, c);
            escaped = !escaped && c == '\\';
            i += 1;
            proof {
                assert(rest.drop_first() =~= string@.subrange(i as int, len as int));
                assert(result@ =~= done + seq![c]);
                lemma_after_text(done, seq![c], formatted(rest.drop_first(), left, escaped));
            }
        } else if i + 1 == len {
            return Err(FormatError::EndsInSpecifier);
        } else {
            let specifier = string.get_char(i + 1);
            assert(rest[1] == specifier);
            if specifier == '%' {
                push_char(&mut result, '%');
                i += 2;
                proof {
                    assert(rest.subrange(2, rest.len() as int) =~= string@.subrange(
                        i as int,
                        len as int,
                    ));
                    assert(result@ =~= done + seq!['%']);
                    lemma_after_text(
                        done,
                        seq!['%'],
                        formatted(rest.subrange(2, rest.len() as int), left, false),
                    );
                }
            } else if used == args.len() {
                return Err(FormatError::NotEnoughArguments);
            } else {
                result.append(args[used].as_str());
                proof {
                    assert(left[0] == args@[used as int]@);
                    assert(left.drop_first() =~= all.subrange(used + 1, all.len() as int));
                }
                used += 1;
                i += 2;
                proof {
                    assert(rest.subrange(2, rest.len() as int) =~= string@.subrange(
                        i as int,
                        len as int,
                    ));
                    assert(result@ =~= done + left[0]);
                    lemma_after_text(
                        done,
                        left[0],
                        formatted(rest.subrange(2, rest.len() as int), left.drop_first(), false),
                    );
                }
            }
        }
    }
    proof {
        assert(result@ + Seq::<char>::empty() =~= result@);
    }
    if used == args.len() {
        Ok(result)
    } else {
        Err(FormatError::TooManyArguments)
    }
}

/// Putting one text and then another before an outcome is putting the two
/// texts joined before it.
pub proof fn lemma_after_text(
    first: Seq<char>,
    second: Seq<char>,
    rest: Result<Seq<char>, FormatError>,
)
    ensures
        after_text(first, after_text(second, rest)) == after_text(first + second, rest),
{
    match rest {
        Ok(tail) => {
            assert(first + (second + tail) =~= (first + second) + tail);
        },
        Err(_) => {},
    }
}

/// `text` with each `` ` `` and each `'` replaced by `"`.
pub open spec fn requoted(text: Seq<char>) -> Seq<char> {
    text.map_values(
        |c: char|
            if c == '`' || c == '\'' {
                '"'
            } else {
                c
            },
    )
}

/// Formats `string` as `format` does, and then replaces each `` ` `` and each
/// `'` by `"`.
pub fn format_message(string: &str, args: &Vec<String>) -> (result: Result<String, FormatError>)
    ensures
        match result {
            Ok(text) => formatted(string@, texts(args@), false) matches Ok(plain) && text@
                == requoted(plain),
            Err(e) => formatted(string@, texts(args@), false) == Err::<Seq<char>, FormatError>(e),
        },
{
    let formatted = match format(string, args) {
        Ok(text) => text,
        Err(e) => {
            return Err(e);
        },
    };
    let plain = formatted.as_str();
    let mut result = String::new();
    let len = plain.unicode_len();
    let mut i: usize = 0;
    while i < len
        invariant
            i <= len == plain@.len(),
            result@ == requoted(plain@.subrange(0, i as int)),
        decreases len - i,
    {
        let c = plain.get_char(i);
        let quoted = if c == '`' || c == '\'' {
            '"'
        } else {
            c
        };
        push_char(&mut result, quoted);
        i += 1;
        assert(result@ =~= requoted(plain@.subrange(0, i as int)));
    }
    assert(plain@.subrange(0, len as int) =~= plain@);
    Ok(result)
}

} // verus!
