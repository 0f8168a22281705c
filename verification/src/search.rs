//! Regular expressions in the Lisp style, where `\(` groups and `(` stands
//! for itself, turned into the usual style, where it is the other way round;
//! and the match data of a match.
use crate::wrappers::push_char;
use vstd::prelude::*;
use vstd::string::StrSliceExecFns;

verus! {

/// `text` with the escaping of parentheses inverted: `\(` becomes `(` and
/// `(` becomes `\(`, and likewise for `)`. Everything else stays.
pub open spec fn inverted(text: Seq<char>) -> Seq<char>
    decreases text.len(),
{
    if text.len() == 0 {
        text
    } else if text[0] == '(' || text[0] == ')' {
        seq!['\\', text[0]] + inverted(text.drop_first())
    } else if text[0] == '\\' && text.len() >= 2 && (text[1] == '(' || text[1] == ')') {
        seq![text[1]] + inverted(text.subrange(2, text.len() as int))
    } else {
        seq![text[0]] + inverted(text.drop_first())
    }
}

/// Inverts the escaping of parentheses in `regexp`.
pub fn lisp_regex_to_rust(regexp: &str) -> (norm_regex: String)
    ensures
        norm_regex@ == inverted(regexp@),
{
    let mut norm_regex = String::new();
    let len = regexp.unicode_len();
    let mut i: usize = 0;
    proof {
        assert(regexp@.subrange(0, len as int) =~= regexp@);
        assert(norm_regex@ + inverted(regexp@) =~= inverted(regexp@));
    }
    while i < len
        invariant
            i <= len == regexp@.len(),
            norm_regex@ + inverted(regexp@.subrange(i as int, len as int)) == inverted(regexp@),
        decreases len - i,
    {
        let ghost rest = regexp@.subrange(i as int, len as int);
        let ghost done = norm_regex@;
        let ch = regexp.get_char(i);
        assert(rest[0] == ch);
        if ch == '(' || ch == ')' {
            push_char(&mut norm_regex, '\\');
            push_char(&mut norm_regex, ch);
            i += 1;
            proof {
                assert(rest.drop_first() =~= regexp@.subrange(i as int, len as int));
                assert(norm_regex@ + inverted(rest.drop_first()) =~= done + (seq!['\\', ch]
                    + inverted(rest.drop_first())));
            }
        } else if ch == '\\' && i + 1 < len && is_paren(regexp.get_char(i + 1)) {
            let next = regexp.get_char(i + 1);
            assert(rest[1] == next);
            push_char(&mut norm_regex, next);
            i += 2;
            proof {
                assert(rest.subrange(2, rest.len() as int) =~= regexp@.subrange(
                    i as int,
                    len as int,
                ));
                assert(norm_regex@ + inverted(rest.subrange(2, rest.len() as int)) =~= done + (
                seq![next] + inverted(rest.subrange(2, rest.len() as int))));
            }
        } else {
            proof {
                if ch == '\\' && i + 1 < len {
                    assert(rest[1] == regexp@[i + 1]);
                }
            }
            push_char(&mut norm_regex, ch);
            i += 1;
            proof {
                assert(rest.drop_first() =~= regexp@.subrange(i as int, len as int));
                assert(norm_regex@ + inverted(rest.drop_first()) =~= done + (seq![ch] + inverted(
                    rest.drop_first(),
                )));
            }
        }
    }
    assert(norm_regex@ + inverted(regexp@.subrange(len as int, len as int)) =~= norm_regex@);
    norm_regex
}

/// The ends of the leading groups of a match that took part in it: the
/// groups before the first that did not.
pub open spec fn leading(groups: Seq<Option<(usize, usize)>>) -> Seq<usize>
    decreases groups.len(),
{
    if groups.len() == 0 {
        Seq::empty()
    } else {
        match groups[0] {
            Some((start, end)) => seq![start, end] + leading(groups.drop_first()),
            None => Seq::empty(),
        }
    }
}

/// The match data of a match: the start and the end of each group, up to the
/// first group that did not take part. Each entry of `groups` is the byte
/// range of one group, the whole match first.
pub fn group_ends(groups: &Vec<Option<(usize, usize)>>) -> (all: Vec<usize>)
    ensures
        all@ == leading(groups@),
{
    let mut all: Vec<usize> = Vec::new();
    let mut i: usize = 0;
    proof {
        assert(groups@.subrange(0, groups@.len() as int) =~= groups@);
    }
    while i < groups.len()
        invariant
            i <= groups@.len(),
            all@ + leading(groups@.subrange(i as int, groups@.len() as int)) == leading(groups@),
        decreases groups@.len() - i,
    {
        let ghost rest = groups@.subrange(i as int, groups@.len() as int);
        let ghost done = all@;
        match groups[i] {
            Some((start, end)) => {
                all.push(start);
                all.push(end);
                i += 1;
                proof {
                    assert(rest.drop_first() =~= groups@.subrange(i as int, groups@.len() as int));
                    assert(all@ + leading(rest.drop_first()) =~= done + (seq![start, end]
                        + leading(rest.drop_first())));
                }
            },
            None => {
                assert(all@ + leading(rest) =~= all@);
                return all;
            },
        }
    }
    assert(all@ + leading(groups@.subrange(i as int, groups@.len() as int)) =~= all@);
    all
}

/// Whether `c` is a parenthesis.
pub fn is_paren(c: char) -> (b: bool)
    ensures
        b == (c == '(' || c == ')'),
{
    c == '(' || c == ')'
}

} // verus!
