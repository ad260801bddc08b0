//! Deny globs as regular expressions.

use vstd::prelude::*;
use vstd::string::*;

use crate::outside::escaped;
use crate::paths::{is_absolute, path_is_absolute};
use crate::text::{chars_of, text_of};

verus! {

/// The regular expression for the rest of a glob, or `None` where it holds a
/// character class. `**/` stands for any number of folders, `**` for anything,
/// `*` and `?` for characters of one folder or file name, and every other
/// character for itself.
pub open spec fn glob_body(glob: Seq<char>) -> Option<Seq<char>>
    decreases glob.len(),
{
    if glob.len() == 0 {
        Some(Seq::empty())
    } else if glob[0] == '*' && glob.len() > 1 && glob[1] == '*' {
        if glob.len() > 2 && glob[2] == '/' {
            prefixed("(.*/)?"@, glob_body(glob.skip(3)))
        } else {
            prefixed(".*"@, glob_body(glob.skip(2)))
        }
    } else if glob[0] == '*' {
        prefixed("[^/]*"@, glob_body(glob.skip(1)))
    } else if glob[0] == '?' {
        prefixed("[^/]"@, glob_body(glob.skip(1)))
    } else if glob[0] == '[' || glob[0] == ']' {
        None
    } else {
        prefixed(escaped(seq![glob[0]]), glob_body(glob.skip(1)))
    }
}

/// `rest` with `start` before it.
pub open spec fn prefixed(start: Seq<char>, rest: Option<Seq<char>>) -> Option<Seq<char>> {
    match rest {
        Some(rest) => Some(start + rest),
        None => None,
    }
}

/// The regular expression for a whole glob, or `None` where it holds a
/// character class.
pub open spec fn glob_expression(glob: Seq<char>) -> Option<Seq<char>> {
    match glob_body(glob) {
        Some(body) => Some("^"@ + body + "$"@),
        None => None,
    }
}

/// Translates a glob into a regular expression; `None` where it holds a
/// character class.
pub fn translate_glob(glob: &str) -> (regex: Option<String>)
    ensures
        match regex {
            Some(regex) => glob_expression(glob@) == Some(regex@),
            None => glob_expression(glob@) is None,
        },
{
    let chars = chars_of(glob);
    let mut regex = "^".to_owned();
    let mut i: usize = 0;
    let ghost mut body: Seq<char> = Seq::empty();
    assert(chars@.skip(0) =~= chars@);
    assert(prefixed(body, glob_body(chars@)) == glob_body(chars@)) by {
        if let Some(rest) = glob_body(chars@) {
            assert(body + rest =~= rest);
        }
    }
    assert(regex@ =~= "^"@ + body);
    while i < chars.len()
        invariant
            i <= chars@.len(),
            chars@ == glob@,
            regex@ == "^"@ + body,
            glob_body(chars@) == prefixed(body, glob_body(chars@.skip(i as int))),
        decreases chars@.len() - i,
    {
        let ghost rest = chars@.skip(i as int);
        let ghost before = body;
        let ghost start = i;
        let ghost part: Seq<char> = Seq::empty();
        let c = chars[i];
        assert(rest[0] == c);
        if c == '[' || c == ']' {
            return None;
        }
        if c == '*' && i + 1 < chars.len() && chars[i + 1] == '*' {
            assert(rest[1] == '*');
            if i + 2 < chars.len() && chars[i + 2] == '/' {
                assert(rest[2] == '/');
                regex.append("(.*/)?");
                proof {
                    body = body + "(.*/)?"@;
                }
                i = i + 3;
            } else {
                regex.append(".*");
                proof {
                    body = body + ".*"@;
                }
                i = i + 2;
            }
        } else if c == '*' {
            regex.append("[^/]*");
            proof {
                body = body + "[^/]*"@;
            }
            i = i + 1;
        } else if c == '?' {
            regex.append("[^/]");
            proof {
                body = body + "[^/]"@;
            }
            i = i + 1;
        } else {
            let one = text_of(&chars, i, i + 1);
            assert(one@ =~= seq![c]);
            let literal = regex_lite::escape(one.as_str());
            regex.append(literal.as_str());
            proof {
                body = body + literal@;
            }
            i = i + 1;
        }
        assert(rest.skip(i - start) =~= chars@.skip(i as int));
        assert(regex@ =~= "^"@ + body);
        assert(glob_body(chars@) == prefixed(body, glob_body(chars@.skip(i as int)))) by {
            if let Some(tail) = glob_body(chars@.skip(i as int)) {
                let added = body.skip(before.len() as int);
                assert(body =~= before + added);
                assert(before + (added + tail) =~= body + tail);
            }
        }
    }
    assert(chars@.skip(i as int) =~= Seq::empty());
    assert(body + Seq::<char>::empty() =~= body);
    regex.append("$");
    Some(regex)
}

/// The Seatbelt regular expression for a deny glob, or why there is none.
pub open spec fn seatbelt_regex(pattern: Seq<char>) -> Result<Seq<char>, Seq<char>> {
    if !is_absolute(pattern) {
        Err("deny glob must be a non-empty absolute pattern"@)
    } else {
        match glob_expression(pattern) {
            Some(regex) => Ok(regex),
            None => Err("character classes are not supported in v1 deny globs"@),
        }
    }
}

/// The Seatbelt regular expression for a deny glob.
///
/// # Errors
///
/// Fails for a glob that is not absolute or that holds a character class.
pub fn seatbelt_regex_for_glob(pattern: &str) -> (regex: Result<String, String>)
    ensures
        match regex {
            Ok(regex) => seatbelt_regex(pattern@) == Ok::<Seq<char>, Seq<char>>(regex@),
            Err(error) => seatbelt_regex(pattern@) == Err::<Seq<char>, Seq<char>>(error@),
        },
{
    if !path_is_absolute(pattern) {
        return Err("deny glob must be a non-empty absolute pattern".to_owned());
    }
    match translate_glob(pattern) {
        Some(regex) => Ok(regex),
        None => Err("character classes are not supported in v1 deny globs".to_owned()),
    }
}

/// The regular expression that finds a deny glob's matches on disk, or why
/// there is none.
pub open spec fn scan_regex(pattern: Seq<char>) -> Result<Seq<char>, Seq<char>> {
    if !is_absolute(pattern) {
        Err("deny glob must be absolute"@)
    } else {
        match glob_expression(pattern) {
            Some(regex) => Ok(regex),
            None => Err("glob character classes are unsupported"@),
        }
    }
}

/// The regular expression that finds a deny glob's matches on disk.
///
/// # Errors
///
/// Fails for a glob that is not absolute or that holds a character class.
pub fn glob_regex(pattern: &str) -> (regex: Result<String, String>)
    ensures
        match regex {
            Ok(regex) => scan_regex(pattern@) == Ok::<Seq<char>, Seq<char>>(regex@),
            Err(error) => scan_regex(pattern@) == Err::<Seq<char>, Seq<char>>(error@),
        },
{
    if !path_is_absolute(pattern) {
        return Err("deny glob must be absolute".to_owned());
    }
    match translate_glob(pattern) {
        Some(regex) => Ok(regex),
        None => Err("glob character classes are unsupported".to_owned()),
    }
}

/// Both readings of a deny glob agree wherever either accepts it: what Seatbelt
/// denies by pattern is what the scan looks for by pattern.
pub proof fn both_readings_agree(pattern: Seq<char>)
    ensures
        seatbelt_regex(pattern) is Ok <==> scan_regex(pattern) is Ok,
        seatbelt_regex(pattern) is Ok ==> seatbelt_regex(pattern)->Ok_0 == scan_regex(
            pattern,
        )->Ok_0,
{
}

} // verus!
