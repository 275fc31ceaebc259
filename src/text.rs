//! Text utilities: character classes, splitting, joining, matching
//! normalisation and cluster ids.

use vstd::prelude::*;

verus! {

/// What `str::to_lowercase` makes of a text.
pub uninterp spec fn lower_of(s: Seq<char>) -> Seq<char>;

/// Whether Unicode counts `c` as alphabetic.
pub uninterp spec fn alphabetic(c: char) -> bool;

/// Whether Unicode counts `c` as alphanumeric.
pub uninterp spec fn alphanumeric(c: char) -> bool;

/// Whether Unicode counts `c` as white space.
pub uninterp spec fn white_space(c: char) -> bool;

/// What `char::to_uppercase` makes of a character.
pub uninterp spec fn upper_of(c: char) -> Seq<char>;

/// Relies on str::chars: the characters of the text, in order.
#[verifier::external_body]
pub(crate) fn chars_of(s: &str) -> (r: Vec<char>)
    ensures
        r@ == s@,
{
    s.chars().collect()
}

/// Relies on String's FromIterator<char>: the text made of these characters.
#[verifier::external_body]
pub(crate) fn string_of(cs: &Vec<char>) -> (r: String)
    ensures
        r@ == cs@,
{
    cs.iter().collect()
}

/// Relies on str::to_lowercase: the result depends on the characters alone.
#[verifier::external_body]
pub(crate) fn lowercase(s: &str) -> (r: String)
    ensures
        r@ == lower_of(s@),
        s@.len() == 0 ==> r@.len() == 0,
{
    s.to_lowercase()
}

/// Relies on char::is_alphabetic.
#[verifier::external_body]
pub(crate) fn is_alphabetic(c: char) -> (r: bool)
    ensures
        r == alphabetic(c),
{
    c.is_alphabetic()
}

/// Relies on char::is_alphanumeric.
#[verifier::external_body]
pub(crate) fn is_alphanumeric(c: char) -> (r: bool)
    ensures
        r == alphanumeric(c),
{
    c.is_alphanumeric()
}

/// Relies on char::is_whitespace.
#[verifier::external_body]
pub(crate) fn is_whitespace(c: char) -> (r: bool)
    ensures
        r == white_space(c),
{
    c.is_whitespace()
}

/// Relies on char::to_uppercase: the upper-case form of one character, which
/// may be several characters long.
#[verifier::external_body]
pub(crate) fn uppercase_char(c: char) -> (r: Vec<char>)
    ensures
        r@ == upper_of(c),
{
    c.to_uppercase().collect()
}

/// `r` is `s` without its leading and trailing white space.
pub open spec fn trimmed(s: Seq<char>, r: Seq<char>) -> bool {
    &&& exists|a: int, b: int|
        0 <= a <= b <= s.len() && r == s.subrange(a, b) && (forall|i: int| 0 <= i < a ==> #[trigger] white_space(s[i]))
            && (forall|i: int| b <= i < s.len() ==> #[trigger] white_space(s[i]))
    &&& r.len() > 0 ==> !white_space(r[0]) && !white_space(r.last())
}

/// Relies on str::trim: the text without its leading and trailing white space.
#[verifier::external_body]
pub(crate) fn trim_text(s: &str) -> (r: String)
    ensures
        trimmed(s@, r@),
{
    s.trim().to_string()
}

/// Splitting the first `k` characters at separators: the finished words and
/// the word still open.
pub open spec fn split_prefix(cs: Seq<char>, sep: Seq<bool>, k: int) -> (Seq<Seq<char>>, Seq<char>)
    decreases k,
{
    if k <= 0 {
        (Seq::empty(), Seq::empty())
    } else {
        let p = split_prefix(cs, sep, k - 1);
        if sep[k - 1] {
            if p.1.len() > 0 {
                (p.0.push(p.1), Seq::empty())
            } else {
                (p.0, Seq::empty())
            }
        } else {
            (p.0, p.1.push(cs[k - 1]))
        }
    }
}

/// The maximal runs of characters of `cs` whose `sep` flag is off, in order.
pub open spec fn split_words(cs: Seq<char>, sep: Seq<bool>) -> Seq<Seq<char>> {
    let p = split_prefix(cs, sep, cs.len() as int);
    if p.1.len() > 0 {
        p.0.push(p.1)
    } else {
        p.0
    }
}

/// The words joined by single `sep` characters.
pub open spec fn join_with(ws: Seq<Seq<char>>, sep: char) -> Seq<char>
    decreases ws.len(),
{
    if ws.len() == 0 {
        Seq::empty()
    } else if ws.len() == 1 {
        ws[0]
    } else {
        join_with(ws.drop_last(), sep) + seq![sep] + ws.last()
    }
}

/// Splits `cs` into the maximal runs of characters whose flag in `sep` is off.
pub fn split_at_flags(cs: &Vec<char>, sep: &Vec<bool>) -> (r: Vec<Vec<char>>)
    requires
        sep@.len() == cs@.len(),
    ensures
        r@.len() == split_words(cs@, sep@).len(),
        forall|i: int| 0 <= i < r@.len() ==> #[trigger] r@[i]@ == split_words(cs@, sep@)[i],
{
    let mut words: Vec<Vec<char>> = Vec::new();
    let mut cur: Vec<char> = Vec::new();
    let mut k: usize = 0;
    while k < cs.len()
        invariant
            k <= cs@.len(),
            sep@.len() == cs@.len(),
            words@.len() == split_prefix(cs@, sep@, k as int).0.len(),
            forall|i: int| 0 <= i < words@.len() ==> #[trigger] words@[i]@ == split_prefix(cs@, sep@, k as int).0[i],
            cur@ == split_prefix(cs@, sep@, k as int).1,
        decreases cs@.len() - k,
    {
        if sep[k] {
            if cur.len() > 0 {
                let ghost old_words = words@;
                words.push(cur);
                cur = Vec::new();
                proof {
                    assert forall|i: int| 0 <= i < words@.len() implies #[trigger] words@[i]@ == split_prefix(cs@, sep@, k + 1).0[i] by {
                        if i < old_words.len() {
                            assert(words@[i] == old_words[i]);
                        }
                    }
                }
            } else {
                cur = Vec::new();
            }
        } else {
            cur.push(cs[k]);
        }
        k = k + 1;
    }
    if cur.len() > 0 {
        let ghost old_words = words@;
        words.push(cur);
        proof {
            assert forall|i: int| 0 <= i < words@.len() implies #[trigger] words@[i]@ == split_words(cs@, sep@)[i] by {
                if i < old_words.len() {
                    assert(words@[i] == old_words[i]);
                }
            }
        }
    }
    words
}

/// Joins the words with single `sep` characters.
pub fn join_words(ws: &Vec<Vec<char>>, sep: char) -> (r: Vec<char>)
    ensures
        r@ == join_with(ws@.map_values(|w: Vec<char>| w@), sep),
{
    let ghost vs = ws@.map_values(|w: Vec<char>| w@);
    let mut r: Vec<char> = Vec::new();
    let mut i: usize = 0;
    while i < ws.len()
        invariant
            i <= ws@.len(),
            vs == ws@.map_values(|w: Vec<char>| w@),
            r@ == join_with(vs.subrange(0, i as int), sep),
        decreases ws@.len() - i,
    {
        if i > 0 {
            r.push(sep);
        }
        let w = &ws[i];
        let ghost before = r@;
        let mut j: usize = 0;
        while j < w.len()
            invariant
                j <= w@.len(),
                r@ == before + w@.subrange(0, j as int),
            decreases w@.len() - j,
        {
            r.push(w[j]);
            j = j + 1;
        }
        proof {
            let s1 = vs.subrange(0, i + 1);
            assert(s1.drop_last() =~= vs.subrange(0, i as int));
            assert(w@.subrange(0, w@.len() as int) =~= w@);
            if i == 0 {
                assert(r@ =~= s1[0]);
            } else {
                assert(r@ =~= join_with(vs.subrange(0, i as int), sep) + seq![sep] + s1.last());
            }
        }
        i = i + 1;
    }
    assert(vs.subrange(0, ws@.len() as int) =~= vs);
    r
}

/// A character kept by `normalize_for_match`: alphanumeric or white space; any
/// other becomes a space.
pub open spec fn match_char(c: char) -> char {
    if alphanumeric(c) || white_space(c) {
        c
    } else {
        ' '
    }
}

/// The text that `normalize_for_match` makes of `s`.
pub open spec fn normalized(s: Seq<char>) -> Seq<char> {
    let m = lower_of(s).map_values(|c: char| match_char(c));
    join_with(split_words(m, m.map_values(|c: char| white_space(c))), ' ')
}

/// Lower-cases `s`, turns every character that is neither alphanumeric nor
/// white space into a space, and joins the remaining words with single spaces.
pub fn normalize_for_match(s: &str) -> (r: String)
    ensures
        r@ == normalized(s@),
{
    let low = lowercase(s);
    let cs = chars_of(low.as_str());
    let mut mapped: Vec<char> = Vec::new();
    let mut sep: Vec<bool> = Vec::new();
    let mut i: usize = 0;
    while i < cs.len()
        invariant
            i <= cs@.len(),
            cs@ == lower_of(s@),
            mapped@ == cs@.subrange(0, i as int).map_values(|c: char| match_char(c)),
            sep@ == mapped@.map_values(|c: char| white_space(c)),
        decreases cs@.len() - i,
    {
        let c = cs[i];
        let keep = is_alphanumeric(c) || is_whitespace(c);
        let m = if keep {
            c
        } else {
            ' '
        };
        let ws = is_whitespace(m);
        mapped.push(m);
        sep.push(ws);
        proof {
            assert(cs@.subrange(0, i + 1) =~= cs@.subrange(0, i as int).push(c));
            assert(mapped@ =~= cs@.subrange(0, i + 1).map_values(|c: char| match_char(c)));
            assert(sep@ =~= mapped@.map_values(|c: char| white_space(c)));
        }
        i = i + 1;
    }
    assert(cs@.subrange(0, cs@.len() as int) =~= cs@);
    let words = split_at_flags(&mapped, &sep);
    proof {
        let vs = words@.map_values(|w: Vec<char>| w@);
        assert(vs =~= split_words(mapped@, sep@));
    }
    let joined = join_words(&words, ' ');
    string_of(&joined)
}

/// A character of a cluster name as its id sees it: alphanumeric characters
/// stay, anything else becomes a hyphen.
pub open spec fn slug_char(c: char) -> char {
    if alphanumeric(c) {
        c
    } else {
        '-'
    }
}

/// The id that `cluster_slug` makes of a name.
pub open spec fn slug_of(s: Seq<char>) -> Seq<char> {
    let m = lower_of(s).map_values(|c: char| slug_char(c));
    join_with(split_words(m, m.map_values(|c: char| c == '-')), '-')
}

/// The id of a cluster: its name in lower case, with each run of characters
/// that are not alphanumeric turned into one hyphen, and none at either end.
pub fn cluster_slug(name: &str) -> (r: String)
    ensures
        r@ == slug_of(name@),
{
    let low = lowercase(name);
    let cs = chars_of(low.as_str());
    let mut mapped: Vec<char> = Vec::new();
    let mut sep: Vec<bool> = Vec::new();
    let mut i: usize = 0;
    while i < cs.len()
        invariant
            i <= cs@.len(),
            cs@ == lower_of(name@),
            mapped@ == cs@.subrange(0, i as int).map_values(|c: char| slug_char(c)),
            sep@ == mapped@.map_values(|c: char| c == '-'),
        decreases cs@.len() - i,
    {
        let c = cs[i];
        let m = if is_alphanumeric(c) {
            c
        } else {
            '-'
        };
        mapped.push(m);
        sep.push(m == '-');
        proof {
            assert(cs@.subrange(0, i + 1) =~= cs@.subrange(0, i as int).push(c));
            assert(mapped@ =~= cs@.subrange(0, i + 1).map_values(|c: char| slug_char(c)));
            assert(sep@ =~= mapped@.map_values(|c: char| c == '-'));
        }
        i = i + 1;
    }
    assert(cs@.subrange(0, cs@.len() as int) =~= cs@);
    let words = split_at_flags(&mapped, &sep);
    proof {
        let vs = words@.map_values(|w: Vec<char>| w@);
        assert(vs =~= split_words(mapped@, sep@));
    }
    let joined = join_words(&words, '-');
    string_of(&joined)
}

} // verus!
