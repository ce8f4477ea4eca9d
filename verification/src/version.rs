//! The version-heading grammar: the text of a level-2 heading either names
//! the unreleased marker or a semantic version (each optionally wrapped in
//! one `[` ... `]` pair), the released form followed by an optional
//! ` - YYYY-MM-DD` date.

use crate::date::Date;
use crate::date::date_of_text;
use crate::date::date_text_valid;
use vstd::prelude::*;

verus! {

/// `versions::SemVer` carries a validated semantic version through this
/// crate as an opaque value; the crate never looks inside it.
#[verifier::external_type_specification]
#[verifier::external_body]
pub struct ExSemVer(versions::SemVer);

/// What `versions::SemVer::parse` returns on a given text: the version it
/// parses and how many characters it consumes, or nothing where no
/// semantic-version literal starts the text. The result is a function of
/// the text alone.
pub uninterp spec fn semver_split(s: Seq<char>) -> Option<(versions::SemVer, int)>;

/// Relies on `versions::SemVer::parse`: it reads a semantic-version literal
/// from the front of the text and returns it beside the unconsumed suffix,
/// or fails having consumed nothing.
#[verifier::external_body]
fn semver_take<'a>(i: &'a str) -> (r: Option<(versions::SemVer, &'a str)>)
    ensures
        match semver_split(i@) {
            Some(t) => {
                &&& 0 <= t.1 <= i@.len()
                &&& r matches Some(p) && p.0 == t.0 && p.1@ == i@.skip(t.1)
            },
            None => r is None,
        },
{
    match versions::SemVer::parse(i) {
        Ok((rest, sv)) => Some((sv, rest)),
        Err(_) => None,
    }
}

/// One changelog heading's meaning.
#[derive(Debug)]
pub enum Version {
    /// The heading names the unreleased marker.
    Unreleased,
    /// The heading names a released version, with its date where one follows.
    Released(versions::SemVer, Option<Date>),
}

/// Why a single block failed to classify as a version boundary. None of
/// these is fatal to a scan: the segmenter treats every one as "this block
/// is not a boundary".
#[derive(Clone, Copy, Debug, PartialEq, Eq, Structural)]
pub enum VersionParseError {
    /// The block is not a heading at the required level.
    Header,
    /// The heading does not contain exactly one inline content run.
    SingleSpan,
    /// The heading text matches neither the unreleased nor the released form.
    Format,
    /// The rendered heading bytes are not valid text.
    Utf8,
}

pub open spec fn is_space_char(c: char) -> bool {
    c == ' ' || c == '\t'
}

/// How many characters of horizontal whitespace start the text.
pub open spec fn space_run(s: Seq<char>) -> int
    decreases s.len(),
{
    if s.len() > 0 && is_space_char(s[0]) {
        1 + space_run(s.drop_first())
    } else {
        0
    }
}

pub proof fn lemma_space_run(s: Seq<char>)
    ensures
        0 <= space_run(s) <= s.len(),
        forall|i: int| 0 <= i < space_run(s) ==> is_space_char(#[trigger] s[i]),
        space_run(s) < s.len() ==> !is_space_char(s[space_run(s)]),
    decreases s.len(),
{
    if s.len() > 0 && is_space_char(s[0]) {
        lemma_space_run(s.drop_first());
        assert forall|i: int| 0 <= i < space_run(s) implies is_space_char(#[trigger] s[i]) by {
            if i > 0 {
                assert(is_space_char(s.drop_first()[i - 1]));
            }
        }
    }
}

/// The word `unreleased` stands at `off`, case-insensitive per character.
pub open spec fn unreleased_at(s: Seq<char>, off: int) -> bool {
    &&& 0 <= off
    &&& off + 10 <= s.len()
    &&& (s[off] == 'u' || s[off] == 'U')
    &&& (s[off + 1] == 'n' || s[off + 1] == 'N')
    &&& (s[off + 2] == 'r' || s[off + 2] == 'R')
    &&& (s[off + 3] == 'e' || s[off + 3] == 'E')
    &&& (s[off + 4] == 'l' || s[off + 4] == 'L')
    &&& (s[off + 5] == 'e' || s[off + 5] == 'E')
    &&& (s[off + 6] == 'a' || s[off + 6] == 'A')
    &&& (s[off + 7] == 's' || s[off + 7] == 'S')
    &&& (s[off + 8] == 'e' || s[off + 8] == 'E')
    &&& (s[off + 9] == 'd' || s[off + 9] == 'D')
}

/// The unreleased form: the text begins with `unreleased`, either bare or
/// wrapped in one bracket pair; whatever follows the form is ignored.
pub open spec fn is_unreleased_text(s: Seq<char>) -> bool {
    ||| unreleased_at(s, 0)
    ||| (s.len() >= 12 && s[0] == '[' && unreleased_at(s, 1) && s[11] == ']')
}

/// The released form's semantic-version literal: parsed from the front of
/// the text, or from inside one bracket pair; beside it, the index of the
/// first character after the form.
pub open spec fn released_split(s: Seq<char>) -> Option<(versions::SemVer, int)> {
    if semver_split(s) is Some {
        semver_split(s)
    } else if s.len() >= 1 && s[0] == '[' {
        match semver_split(s.skip(1)) {
            Some(t) => if t.1 + 1 < s.len() && s[t.1 + 1] == ']' {
                Some((t.0, t.1 + 2))
            } else {
                None
            },
            None => None,
        }
    } else {
        None
    }
}

/// The optional trailing date: optional horizontal whitespace, a literal
/// `-`, optional horizontal whitespace, then the date grammar. Where any
/// part fails, the whole attempt is abandoned and no date is reported.
pub open spec fn trailing_date(s: Seq<char>) -> Option<Date> {
    let k = space_run(s);
    if k < s.len() && s[k] == '-' {
        let t = s.skip(k + 1);
        let rest = t.skip(space_run(t));
        if date_text_valid(rest) {
            Some(date_of_text(rest))
        } else {
            None
        }
    } else {
        None
    }
}

/// What a heading text classifies as: the unreleased form is tried strictly
/// before the released form; a text that matches neither is no version
/// heading at all.
pub open spec fn spec_classify(s: Seq<char>) -> Result<Version, VersionParseError> {
    if is_unreleased_text(s) {
        Ok(Version::Unreleased)
    } else {
        match released_split(s) {
            Some(t) => Ok(Version::Released(t.0, trailing_date(s.skip(t.1)))),
            None => Err(VersionParseError::Format),
        }
    }
}

/// The first index at or after which the text holds no more leading
/// horizontal whitespace.
fn space_end(i: &str) -> (k: usize)
    ensures
        k as int == space_run(i@),
{
    let n = i.unicode_len();
    let mut j: usize = 0;
    while j < n
        invariant
            j <= n,
            n as int == i@.len(),
            forall|t: int| 0 <= t < j ==> is_space_char(#[trigger] i@[t]),
        decreases n - j,
    {
        let c = i.get_char(j);
        if !(c == ' ' || c == '\t') {
            proof {
                lemma_space_run(i@);
                if (j as int) < space_run(i@) {
                    assert(is_space_char(i@[j as int]));
                }
                if (j as int) > space_run(i@) {
                    assert(is_space_char(i@[space_run(i@)]));
                }
            }
            return j;
        }
        j = j + 1;
    }
    proof {
        lemma_space_run(i@);
        if (j as int) > space_run(i@) {
            assert(is_space_char(i@[space_run(i@)]));
        }
    }
    j
}

/// The optional ` - YYYY-MM-DD` tail after a released-version literal.
fn parse_trailing_date(i: &str) -> (r: Option<Date>)
    ensures
        r == trailing_date(i@),
{
    let n = i.unicode_len();
    let k = space_end(i);
    if k < n && i.get_char(k) == '-' {
        let t = i.substring_char(k + 1, n);
        let m = t.unicode_len();
        let k2 = space_end(t);
        proof {
            lemma_space_run(t@);
        }
        let rest = t.substring_char(k2, m);
        match Date::parse(rest) {
            Ok(p) => Some(p.0),
            Err(_) => None,
        }
    } else {
        None
    }
}

/// Does the text begin with the unreleased marker, in either of its forms?
fn is_unreleased(text: &str) -> (b: bool)
    ensures
        b == is_unreleased_text(text@),
{
    if unreleased_word_at(text, 0) {
        return true;
    }
    let n = text.unicode_len();
    n >= 12 && text.get_char(0) == '[' && unreleased_word_at(text, 1) && text.get_char(11) == ']'
}

/// Does the word `unreleased` stand at `off`, case-insensitive?
fn unreleased_word_at(text: &str, off: usize) -> (b: bool)
    requires
        off <= 1,
    ensures
        b == unreleased_at(text@, off as int),
{
    let n = text.unicode_len();
    if n < 10 || off > n - 10 {
        return false;
    }
    let c0 = text.get_char(off);
    let c1 = text.get_char(off + 1);
    let c2 = text.get_char(off + 2);
    let c3 = text.get_char(off + 3);
    let c4 = text.get_char(off + 4);
    let c5 = text.get_char(off + 5);
    let c6 = text.get_char(off + 6);
    let c7 = text.get_char(off + 7);
    let c8 = text.get_char(off + 8);
    let c9 = text.get_char(off + 9);
    (c0 == 'u' || c0 == 'U') && (c1 == 'n' || c1 == 'N') && (c2 == 'r' || c2 == 'R') && (c3 == 'e'
        || c3 == 'E') && (c4 == 'l' || c4 == 'L') && (c5 == 'e' || c5 == 'E') && (c6 == 'a' || c6
        == 'A') && (c7 == 's' || c7 == 'S') && (c8 == 'e' || c8 == 'E') && (c9 == 'd' || c9 == 'D')
}

impl Version {
    /// Classify one heading's plain text. Trying the same text twice gives
    /// the same answer: the result is a function of the text alone.
    pub fn classify(text: &str) -> (r: Result<Version, VersionParseError>)
        ensures
            r == spec_classify(text@),
    {
        if is_unreleased(text) {
            return Ok(Version::Unreleased);
        }
        let n = text.unicode_len();
        match semver_take(text) {
            Some(p) => Ok(Version::Released(p.0, parse_trailing_date(p.1))),
            None => {
                if n >= 1 && text.get_char(0) == '[' {
                    let inner = text.substring_char(1, n);
                    match semver_take(inner) {
                        Some(p) => {
                            let m = p.1.unicode_len();
                            if m >= 1 && p.1.get_char(0) == ']' {
                                let rest = p.1.substring_char(1, m);
                                proof {
                                    let gn = match semver_split(text@.skip(1)) {
                                        Some(q) => q.1,
                                        None => 0int,
                                    };
                                    assert(inner@ =~= text@.skip(1));
                                    assert(p.1@[0] == text@[gn + 1]);
                                    assert(rest@ =~= text@.skip(gn + 2));
                                }
                                Ok(Version::Released(p.0, parse_trailing_date(rest)))
                            } else {
                                proof {
                                    let gn = match semver_split(text@.skip(1)) {
                                        Some(q) => q.1,
                                        None => 0int,
                                    };
                                    assert(inner@ =~= text@.skip(1));
                                    if m >= 1 {
                                        assert(p.1@[0] == text@[gn + 1]);
                                    }
                                }
                                Err(VersionParseError::Format)
                            }
                        },
                        None => {
                            proof {
                                assert(inner@ =~= text@.skip(1));
                            }
                            Err(VersionParseError::Format)
                        },
                    }
                } else {
                    Err(VersionParseError::Format)
                }
            },
        }
    }

    /// The released version and its date, where this is the released form.
    pub fn into_released(self) -> (r: Option<(versions::SemVer, Option<Date>)>)
        ensures
            match self {
                Version::Unreleased => r is None,
                Version::Released(v, d) => r == Some((v, d)),
            },
    {
        match self {
            Version::Unreleased => None,
            Version::Released(v, d) => Some((v, d)),
        }
    }
}

} // verus!
