//! Cluster names: scored words and keywords, the catch-all name, and the
//! retry policy for the naming service.

use vstd::prelude::*;

use crate::text::{
    alphabetic, chars_of, trim_text, trimmed, is_alphabetic, is_whitespace, lower_of, lowercase, split_at_flags, split_words, string_of,
    upper_of, uppercase_char, white_space,
};

verus! {

/// Name of every outlier cluster, and of a cluster with nothing to name it by.
pub fn catch_all_name() -> (r: String)
    ensures
        r@ == "Sonstiges"@,
{
    string_of(&chars_of("Sonstiges"))
}

/// Words too common to name a cluster by.
pub open spec fn generic_list() -> Seq<Seq<char>> {
    seq![
        "und"@, "der"@, "die"@, "das"@, "in"@, "im"@, "von"@, "für"@, "mit"@, "über"@, "zur"@, "zum"@,
        "diskussion"@, "thema"@, "themen"@, "aspekte"@, "entwicklung"@, "entwicklungen"@, "nutzung"@,
        "verwendung"@, "einsatz"@, "einfluss"@, "bedeutung"@, "rolle"@, "allgemein"@, "allgemeine"@,
        "verschiedene"@, "aktuelle"@, "neue"@, "neuen"@, "technologie"@, "technologien"@, "technik"@,
        "technisch"@, "technische"@, "zukunft"@, "zukünftige"@, "trends"@, "trend"@,
    ]
}

fn generic_words() -> (r: Vec<Vec<char>>)
    ensures
        r@.len() == generic_list().len(),
        forall|i: int| 0 <= i < r@.len() ==> #[trigger] r@[i]@ == generic_list()[i],
{
    let mut r: Vec<Vec<char>> = Vec::new();
    r.push(chars_of("und"));
    r.push(chars_of("der"));
    r.push(chars_of("die"));
    r.push(chars_of("das"));
    r.push(chars_of("in"));
    r.push(chars_of("im"));
    r.push(chars_of("von"));
    r.push(chars_of("für"));
    r.push(chars_of("mit"));
    r.push(chars_of("über"));
    r.push(chars_of("zur"));
    r.push(chars_of("zum"));
    r.push(chars_of("diskussion"));
    r.push(chars_of("thema"));
    r.push(chars_of("themen"));
    r.push(chars_of("aspekte"));
    r.push(chars_of("entwicklung"));
    r.push(chars_of("entwicklungen"));
    r.push(chars_of("nutzung"));
    r.push(chars_of("verwendung"));
    r.push(chars_of("einsatz"));
    r.push(chars_of("einfluss"));
    r.push(chars_of("bedeutung"));
    r.push(chars_of("rolle"));
    r.push(chars_of("allgemein"));
    r.push(chars_of("allgemeine"));
    r.push(chars_of("verschiedene"));
    r.push(chars_of("aktuelle"));
    r.push(chars_of("neue"));
    r.push(chars_of("neuen"));
    r.push(chars_of("technologie"));
    r.push(chars_of("technologien"));
    r.push(chars_of("technik"));
    r.push(chars_of("technisch"));
    r.push(chars_of("technische"));
    r.push(chars_of("zukunft"));
    r.push(chars_of("zukünftige"));
    r.push(chars_of("trends"));
    r.push(chars_of("trend"));
    proof {
        assert(r@.map_values(|v: Vec<char>| v@) =~= generic_list());
        assert forall|i: int| 0 <= i < r@.len() implies #[trigger] r@[i]@ == generic_list()[i] by {
            assert(r@.map_values(|v: Vec<char>| v@)[i] == r@[i]@);
        }
    }
    r
}

pub fn same_chars(a: &Vec<char>, b: &Vec<char>) -> (r: bool)
    ensures
        r == (a@ == b@),
{
    if a.len() != b.len() {
        return false;
    }
    let mut i: usize = 0;
    while i < a.len()
        invariant
            i <= a@.len(),
            a@.len() == b@.len(),
            forall|t: int| 0 <= t < i ==> a@[t] == b@[t],
        decreases a@.len() - i,
    {
        if a[i] != b[i] {
            return false;
        }
        i = i + 1;
    }
    assert(a@ =~= b@);
    true
}

/// A character of a topic text as word extraction sees it: letters, spaces and
/// hyphens stay, anything else becomes a space.
pub open spec fn word_char(c: char) -> char {
    if alphabetic(c) || c == ' ' || c == '-' {
        c
    } else {
        ' '
    }
}

/// Words of more than two characters that are not generic, in order.
pub open spec fn keep_words(ws: Seq<Seq<char>>) -> Seq<Seq<char>>
    decreases ws.len(),
{
    if ws.len() == 0 {
        Seq::empty()
    } else if ws.last().len() > 2 && !generic_list().contains(ws.last()) {
        keep_words(ws.drop_last()).push(ws.last())
    } else {
        keep_words(ws.drop_last())
    }
}

/// The naming words of a topic text: lower-cased, split at white space after
/// every character other than a letter, space or hyphen became a space, keeping
/// the words of more than two characters that are not generic.
pub open spec fn text_words(s: Seq<char>) -> Seq<Seq<char>> {
    let m = lower_of(s).map_values(|c: char| word_char(c));
    keep_words(split_words(m, m.map_values(|c: char| white_space(c))))
}

/// The naming words of one topic text.
pub fn topic_words(text: &str) -> (r: Vec<Vec<char>>)
    ensures
        r@.len() == text_words(text@).len(),
        forall|i: int| 0 <= i < r@.len() ==> #[trigger] r@[i]@ == text_words(text@)[i],
{
    let low = lowercase(text);
    let cs = chars_of(low.as_str());
    let mut mapped: Vec<char> = Vec::new();
    let mut sep: Vec<bool> = Vec::new();
    let mut i: usize = 0;
    while i < cs.len()
        invariant
            i <= cs@.len(),
            cs@ == lower_of(text@),
            mapped@ == cs@.subrange(0, i as int).map_values(|c: char| word_char(c)),
            sep@ == mapped@.map_values(|c: char| white_space(c)),
        decreases cs@.len() - i,
    {
        let c = cs[i];
        let m = if is_alphabetic(c) || c == ' ' || c == '-' {
            c
        } else {
            ' '
        };
        let ws = is_whitespace(m);
        mapped.push(m);
        sep.push(ws);
        proof {
            assert(cs@.subrange(0, i + 1) =~= cs@.subrange(0, i as int).push(c));
            assert(mapped@ =~= cs@.subrange(0, i + 1).map_values(|c: char| word_char(c)));
            assert(sep@ =~= mapped@.map_values(|c: char| white_space(c)));
        }
        i = i + 1;
    }
    assert(cs@.subrange(0, cs@.len() as int) =~= cs@);
    let words = split_at_flags(&mapped, &sep);
    let ghost all = split_words(mapped@, sep@);
    let generic = generic_words();
    let mut r: Vec<Vec<char>> = Vec::new();
    let mut k: usize = 0;
    while k < words.len()
        invariant
            k <= words@.len(),
            words@.len() == all.len(),
            forall|t: int| 0 <= t < words@.len() ==> #[trigger] words@[t]@ == all[t],
            generic@.len() == generic_list().len(),
            forall|t: int| 0 <= t < generic@.len() ==> #[trigger] generic@[t]@ == generic_list()[t],
            r@.len() == keep_words(all.subrange(0, k as int)).len(),
            forall|t: int| 0 <= t < r@.len() ==> #[trigger] r@[t]@ == keep_words(all.subrange(0, k as int))[t],
        decreases words@.len() - k,
    {
        let w = &words[k];
        let mut is_generic = false;
        let mut g: usize = 0;
        while g < generic.len()
            invariant
                g <= generic@.len(),
                generic@.len() == generic_list().len(),
                forall|t: int| 0 <= t < generic@.len() ==> #[trigger] generic@[t]@ == generic_list()[t],
                is_generic == exists|t: int| 0 <= t < g && generic_list()[t] == w@,
            decreases generic@.len() - g,
        {
            if same_chars(&generic[g], w) {
                is_generic = true;
            }
            g = g + 1;
        }
        let long = w.len() > 2;
        let ghost pre = all.subrange(0, k as int);
        let ghost nxt = all.subrange(0, k + 1);
        proof {
            assert(nxt.drop_last() =~= pre);
            assert(nxt.last() == w@);
            if generic_list().contains(w@) {
                let t = choose|t: int| 0 <= t < generic_list().len() && generic_list()[t] == w@;
                assert(generic@[t]@ == w@);
            }
        }
        if long && !is_generic {
            let ghost old_r = r@;
            let mut copy: Vec<char> = Vec::new();
            let mut j: usize = 0;
            while j < w.len()
                invariant
                    j <= w@.len(),
                    copy@ == w@.subrange(0, j as int),
                decreases w@.len() - j,
            {
                copy.push(w[j]);
                j = j + 1;
            }
            assert(copy@ =~= w@);
            r.push(copy);
            proof {
                assert forall|t: int| 0 <= t < r@.len() implies #[trigger] r@[t]@ == keep_words(nxt)[t] by {
                    if t < old_r.len() {
                        assert(r@[t] == old_r[t]);
                    }
                }
            }
        }
        k = k + 1;
    }
    assert(all.subrange(0, words@.len() as int) =~= all);
    r
}


/// Bound on the number of words and keywords that one naming pass reads.
pub const MAX_NAMING_TERMS: u64 = 0x1_0000_0000;

/// What one topic brings to naming: its words, its lower-cased keywords and
/// its weight.
pub struct NamingTopic {
    pub words: Vec<Vec<char>>,
    pub keywords: Vec<Vec<char>>,
    pub weight: u64,
}

/// Lower-cases a keyword.
fn lower_chars(s: &str) -> (r: Vec<char>)
    ensures
        r@ == lower_of(s@),
{
    let low = lowercase(s);
    chars_of(low.as_str())
}

/// The naming view of a topic: the words of its text, its keywords in lower
/// case, and its weight.
pub fn naming_topic(text: &str, keywords: &Vec<String>, weight: u64) -> (r: NamingTopic)
    ensures
        r.words@.len() == text_words(text@).len(),
        forall|i: int| 0 <= i < r.words@.len() ==> #[trigger] r.words@[i]@ == text_words(text@)[i],
        r.keywords@.len() == keywords@.len(),
        forall|i: int| 0 <= i < r.keywords@.len() ==> #[trigger] r.keywords@[i]@ == lower_of(keywords@[i]@),
        r.weight == weight,
{
    let words = topic_words(text);
    let mut kws: Vec<Vec<char>> = Vec::new();
    let mut i: usize = 0;
    while i < keywords.len()
        invariant
            i <= keywords@.len(),
            kws@.len() == i,
            forall|t: int| 0 <= t < i ==> #[trigger] kws@[t]@ == lower_of(keywords@[t]@),
        decreases keywords@.len() - i,
    {
        kws.push(lower_chars(keywords[i].as_str()));
        i = i + 1;
    }
    NamingTopic { words, keywords: kws, weight }
}

/// How often `t` occurs in `ws`.
pub open spec fn occ(ws: Seq<Vec<char>>, t: Seq<char>) -> int
    decreases ws.len(),
{
    if ws.len() == 0 {
        0
    } else {
        occ(ws.drop_last(), t) + if ws.last()@ == t {
            1int
        } else {
            0int
        }
    }
}

/// Score of term `t` over the first `k` topics: each topic adds its weight for
/// every occurrence among its words and twice its weight for every occurrence
/// among its keywords.
pub open spec fn term_score(ts: Seq<NamingTopic>, t: Seq<char>, k: int) -> int
    decreases k,
{
    if k <= 0 {
        0
    } else {
        term_score(ts, t, k - 1) + ts[k - 1].weight * (occ(ts[k - 1].words@, t) + 2 * occ(ts[k - 1].keywords@, t))
    }
}

pub open spec fn terms_before(ts: Seq<NamingTopic>, k: int) -> int
    decreases k,
{
    if k <= 0 {
        0
    } else {
        terms_before(ts, k - 1) + ts[k - 1].words@.len() + ts[k - 1].keywords@.len()
    }
}

proof fn lemma_terms_before_mono(ts: Seq<NamingTopic>, a: int, b: int)
    requires
        0 <= a <= b,
    ensures
        terms_before(ts, a) <= terms_before(ts, b),
    decreases b - a,
{
    if a < b {
        lemma_terms_before_mono(ts, a, b - 1);
    }
}

pub open spec fn keys_distinct(keys: Seq<Vec<char>>) -> bool {
    forall|a: int, b: int| 0 <= a < b < keys.len() ==> keys[a]@ != keys[b]@
}

pub open spec fn has_key(keys: Seq<Vec<char>>, t: Seq<char>) -> bool {
    exists|k: int| 0 <= k < keys.len() && #[trigger] keys[k]@ == t
}

/// `keys` and `scores` list each scored term of `ts` once, with its score.
/// `t` is one of the words of one of the topics.
pub open spec fn in_words(ts: Seq<NamingTopic>, t: Seq<char>) -> bool {
    exists|i: int, j: int| 0 <= i < ts.len() && 0 <= j < ts[i].words@.len() && #[trigger] ts[i].words@[j]@ == t
}

/// `t` is one of the keywords of one of the topics.
pub open spec fn in_keywords(ts: Seq<NamingTopic>, t: Seq<char>) -> bool {
    exists|i: int, j: int| 0 <= i < ts.len() && 0 <= j < ts[i].keywords@.len() && #[trigger] ts[i].keywords@[j]@ == t
}

pub open spec fn scores_fit(ts: Seq<NamingTopic>, keys: Seq<Vec<char>>, scores: Seq<u128>) -> bool {
    &&& keys.len() == scores.len()
    &&& forall|k: int| 0 <= k < keys.len() ==> in_words(ts, #[trigger] keys[k]@) || in_keywords(ts, keys[k]@)
    &&& keys_distinct(keys)
    &&& forall|k: int| 0 <= k < keys.len() ==> #[trigger] scores[k] == term_score(ts, keys[k]@, ts.len() as int)
    &&& forall|t: Seq<char>| !has_key(keys, t) ==> #[trigger] term_score(ts, t, ts.len() as int) == 0
}

fn copy_chars(w: &Vec<char>) -> (r: Vec<char>)
    ensures
        r@ == w@,
{
    let mut r: Vec<char> = Vec::new();
    let mut j: usize = 0;
    while j < w.len()
        invariant
            j <= w@.len(),
            r@ == w@.subrange(0, j as int),
        decreases w@.len() - j,
    {
        r.push(w[j]);
        j = j + 1;
    }
    assert(r@ =~= w@);
    r
}

/// Adds `amount` to the score of `t`, listing `t` first if it is new.
fn add_score(keys: &mut Vec<Vec<char>>, scores: &mut Vec<u128>, t: &Vec<char>, amount: u128)
    requires
        old(keys)@.len() == old(scores)@.len(),
        keys_distinct(old(keys)@),
        forall|k: int| 0 <= k < old(scores)@.len() ==> #[trigger] old(scores)@[k] + amount <= u128::MAX,
    ensures
        final(keys)@.len() == final(scores)@.len(),
        keys_distinct(final(keys)@),
        has_key(final(keys)@, t@),
        forall|u: Seq<char>| has_key(final(keys)@, u) ==> u == t@ || has_key(old(keys)@, u),
        has_key(old(keys)@, t@) ==> final(keys)@.len() == old(keys)@.len(),
        !has_key(old(keys)@, t@) ==> final(keys)@.len() == old(keys)@.len() + 1 && final(keys)@.last()@ == t@
            && final(scores)@.last() == amount,
        forall|k: int| 0 <= k < old(keys)@.len() ==> (#[trigger] final(keys)@[k])@ == old(keys)@[k]@,
        forall|k: int|
            0 <= k < old(keys)@.len() ==> #[trigger] final(scores)@[k] == old(scores)@[k] + if old(keys)@[k]@ == t@ {
                amount
            } else {
                0
            },
{
    let mut k: usize = 0;
    while k < keys.len()
        invariant
            k <= keys@.len(),
            keys@ == old(keys)@,
            scores@ == old(scores)@,
            old(keys)@.len() == old(scores)@.len(),
            keys_distinct(old(keys)@),
            forall|k: int| 0 <= k < old(scores)@.len() ==> #[trigger] old(scores)@[k] + amount <= u128::MAX,
            forall|j: int| 0 <= j < k ==> keys@[j]@ != t@,
        decreases keys@.len() - k,
    {
        if same_chars(&keys[k], t) {
            let v = scores[k] + amount;
            scores.set(k, v);
            proof {
                assert(has_key(keys@, t@));
                assert forall|u: Seq<char>| has_key(keys@, u) implies u == t@ || has_key(old(keys)@, u) by {
                }
                assert forall|k2: int| 0 <= k2 < old(keys)@.len() implies #[trigger] scores@[k2] == old(scores)@[k2] + if old(keys)@[k2]@ == t@ {
                    amount
                } else {
                    0
                } by {
                    if k2 != k {
                        if k2 < k {
                            assert(old(keys)@[k2]@ != old(keys)@[k as int]@);
                        } else {
                            assert(old(keys)@[k as int]@ != old(keys)@[k2]@);
                        }
                    }
                }
            }
            return;
        }
        k = k + 1;
    }
    let ghost old_keys = keys@;
    keys.push(copy_chars(t));
    scores.push(amount);
    proof {
        assert(keys@[old_keys.len() as int]@ == t@);
        assert(has_key(keys@, t@));
        assert(!has_key(old_keys, t@));
        assert forall|a: int, b: int| 0 <= a < b < keys@.len() implies keys@[a]@ != keys@[b]@ by {
            if b < old_keys.len() {
                assert(keys@[a] == old_keys[a] && keys@[b] == old_keys[b]);
            } else {
                assert(keys@[a] == old_keys[a]);
            }
        }
        assert forall|u: Seq<char>| has_key(keys@, u) implies u == t@ || has_key(old(keys)@, u) by {
            let k = choose|k: int| 0 <= k < keys@.len() && #[trigger] keys@[k]@ == u;
            if k < old_keys.len() {
                assert(keys@[k] == old_keys[k]);
            }
        }
        assert forall|k: int| 0 <= k < old(keys)@.len() implies (#[trigger] keys@[k])@ == old(keys)@[k]@ by {
            assert(keys@[k] == old_keys[k]);
        }
    }
}

/// Score of `t` part way through topic `i`: the topics before it in full, and
/// its first `jw` words and first `jk` keywords.
pub open spec fn partial_score(ts: Seq<NamingTopic>, t: Seq<char>, i: int, jw: int, jk: int) -> int {
    term_score(ts, t, i) + ts[i].weight * (occ(ts[i].words@.subrange(0, jw), t) + 2 * occ(ts[i].keywords@.subrange(0, jk), t))
}

proof fn lemma_partial_word(ts: Seq<NamingTopic>, t: Seq<char>, i: int, j: int)
    requires
        0 <= i < ts.len(),
        0 <= j < ts[i].words@.len(),
    ensures
        partial_score(ts, t, i, j + 1, 0) == partial_score(ts, t, i, j, 0) + if ts[i].words@[j]@ == t {
            ts[i].weight as int
        } else {
            0
        },
{
    let ws = ts[i].words@;
    assert(ws.subrange(0, j + 1).drop_last() =~= ws.subrange(0, j));
    assert(ws.subrange(0, j + 1).last() == ws[j]);
    let a = occ(ws.subrange(0, j), t);
    let a2 = occ(ws.subrange(0, j + 1), t);
    let b = occ(ts[i].keywords@.subrange(0, 0), t);
    let w = ts[i].weight as int;
    let dl: int = if ws[j]@ == t { 1 } else { 0 };
    assert(a2 == a + dl);
    assert(w * (a2 + 2 * b) == w * (a + 2 * b) + w * dl) by (nonlinear_arith)
        requires
            a2 == a + dl,
    ;
}

proof fn lemma_partial_keyword(ts: Seq<NamingTopic>, t: Seq<char>, i: int, j: int)
    requires
        0 <= i < ts.len(),
        0 <= j < ts[i].keywords@.len(),
    ensures
        partial_score(ts, t, i, ts[i].words@.len() as int, j + 1) == partial_score(ts, t, i, ts[i].words@.len() as int, j)
            + if ts[i].keywords@[j]@ == t {
            2 * ts[i].weight
        } else {
            0
        },
{
    let ks = ts[i].keywords@;
    let wl = ts[i].words@.len() as int;
    assert(ks.subrange(0, j + 1).drop_last() =~= ks.subrange(0, j));
    assert(ks.subrange(0, j + 1).last() == ks[j]);
    let a = occ(ts[i].words@.subrange(0, wl), t);
    let b = occ(ks.subrange(0, j), t);
    let b2 = occ(ks.subrange(0, j + 1), t);
    let w = ts[i].weight as int;
    let dl: int = if ks[j]@ == t { 1 } else { 0 };
    assert(b2 == b + dl);
    assert(w * (a + 2 * b2) == w * (a + 2 * b) + 2 * w * dl) by (nonlinear_arith)
        requires
            b2 == b + dl,
    ;
}

proof fn lemma_partial_ends(ts: Seq<NamingTopic>, t: Seq<char>, i: int)
    requires
        0 <= i < ts.len(),
    ensures
        partial_score(ts, t, i, 0, 0) == term_score(ts, t, i),
        partial_score(ts, t, i, ts[i].words@.len() as int, ts[i].keywords@.len() as int) == term_score(ts, t, i + 1),
{
    assert(ts[i].words@.subrange(0, 0) =~= Seq::<Vec<char>>::empty());
    assert(ts[i].keywords@.subrange(0, 0) =~= Seq::<Vec<char>>::empty());
    assert(ts[i].words@.subrange(0, ts[i].words@.len() as int) =~= ts[i].words@);
    assert(ts[i].keywords@.subrange(0, ts[i].keywords@.len() as int) =~= ts[i].keywords@);
    let w = ts[i].weight as int;
    assert(w * (0 + 2 * 0) == 0) by (nonlinear_arith);
}

/// Scores every word and keyword of the topics.
pub fn accumulate_terms(topics: &Vec<NamingTopic>) -> (r: (Vec<Vec<char>>, Vec<u128>))
    requires
        terms_before(topics@, topics@.len() as int) <= MAX_NAMING_TERMS,
    ensures
        scores_fit(topics@, r.0@, r.1@),
        r.0@.len() <= terms_before(topics@, topics@.len() as int),
{
    let ghost ts = topics@;
    let mut keys: Vec<Vec<char>> = Vec::new();
    let mut scores: Vec<u128> = Vec::new();
    let ghost mut done: int = 0;
    let mut i: usize = 0;
    while i < topics.len()
        invariant
            i <= ts.len(),
            ts == topics@,
            terms_before(ts, ts.len() as int) <= MAX_NAMING_TERMS,
            done == terms_before(ts, i as int),
            keys@.len() == scores@.len(),
            keys@.len() <= done,
            keys_distinct(keys@),
            forall|k: int| 0 <= k < keys@.len() ==> in_words(ts, #[trigger] keys@[k]@) || in_keywords(ts, keys@[k]@),
            forall|k: int| 0 <= k < keys@.len() ==> #[trigger] scores@[k] == term_score(ts, keys@[k]@, i as int),
            forall|t: Seq<char>| !has_key(keys@, t) ==> #[trigger] term_score(ts, t, i as int) == 0,
            forall|k: int| 0 <= k < scores@.len() ==> #[trigger] scores@[k] <= 0x2_0000_0000_0000_0000 * done,
        decreases ts.len() - i,
    {
        let tp = &topics[i];
        let w = tp.weight as u128;
        proof {
            lemma_terms_before_mono(ts, i + 1, ts.len() as int);
            assert forall|t: Seq<char>| #[trigger] partial_score(ts, t, i as int, 0, 0) == term_score(ts, t, i as int) by {
                lemma_partial_ends(ts, t, i as int);
            }
        }
        let mut j: usize = 0;
        while j < tp.words.len()
            invariant
                i < ts.len(),
                ts == topics@,
                *tp == ts[i as int],
                w == tp.weight,
                w <= 0xFFFF_FFFF_FFFF_FFFF,
                j <= tp.words@.len(),
                terms_before(ts, i + 1) <= MAX_NAMING_TERMS,
                done == terms_before(ts, i as int) + j,
                keys@.len() == scores@.len(),
                keys@.len() <= done,
                keys_distinct(keys@),
                forall|k: int| 0 <= k < keys@.len() ==> in_words(ts, #[trigger] keys@[k]@) || in_keywords(ts, keys@[k]@),
                forall|k: int| 0 <= k < keys@.len() ==> #[trigger] scores@[k] == partial_score(ts, keys@[k]@, i as int, j as int, 0),
                forall|t: Seq<char>| !has_key(keys@, t) ==> #[trigger] partial_score(ts, t, i as int, j as int, 0) == 0,
                forall|k: int| 0 <= k < scores@.len() ==> #[trigger] scores@[k] <= 0x2_0000_0000_0000_0000 * done,
            decreases tp.words@.len() - j,
        {
            let ghost old_keys = keys@;
            let ghost old_scores = scores@;
            let t = &tp.words[j];
            add_score(&mut keys, &mut scores, t, w);
            proof {
                assert forall|k: int| 0 <= k < keys@.len() implies in_words(ts, #[trigger] keys@[k]@) || in_keywords(ts, keys@[k]@) by {
                    if k < old_keys.len() {
                        assert(keys@[k]@ == old_keys[k]@);
                    } else {
                        assert(ts[i as int].words@[j as int]@ == keys@[k]@);
                    }
                }
                assert forall|k: int| 0 <= k < keys@.len() implies #[trigger] scores@[k] == partial_score(ts, keys@[k]@, i as int, j + 1, 0) by {
                    lemma_partial_word(ts, keys@[k]@, i as int, j as int);
                    if k < old_keys.len() {
                        assert(keys@[k]@ == old_keys[k]@);
                    } else {
                        assert(!has_key(old_keys, t@));
                    }
                }
                assert forall|u: Seq<char>| !has_key(keys@, u) implies #[trigger] partial_score(ts, u, i as int, j + 1, 0) == 0 by {
                    lemma_partial_word(ts, u, i as int, j as int);
                    if has_key(old_keys, u) {
                        let k = choose|k: int| 0 <= k < old_keys.len() && #[trigger] old_keys[k]@ == u;
                        assert(keys@[k]@ == u);
                    }
                    assert(u != t@);
                }
                assert forall|k: int| 0 <= k < scores@.len() implies #[trigger] scores@[k] <= 0x2_0000_0000_0000_0000 * (done + 1) by {
                    if k < old_scores.len() {
                        assert(old_scores[k] <= 0x2_0000_0000_0000_0000 * done);
                    }
                }
                done = done + 1;
            }
            j = j + 1;
        }
        let mut j: usize = 0;
        while j < tp.keywords.len()
            invariant
                i < ts.len(),
                ts == topics@,
                *tp == ts[i as int],
                w == tp.weight,
                w <= 0xFFFF_FFFF_FFFF_FFFF,
                j <= tp.keywords@.len(),
                terms_before(ts, i + 1) <= MAX_NAMING_TERMS,
                done == terms_before(ts, i as int) + tp.words@.len() + j,
                keys@.len() == scores@.len(),
                keys@.len() <= done,
                keys_distinct(keys@),
                forall|k: int| 0 <= k < keys@.len() ==> in_words(ts, #[trigger] keys@[k]@) || in_keywords(ts, keys@[k]@),
                forall|k: int| 0 <= k < keys@.len() ==> #[trigger] scores@[k] == partial_score(ts, keys@[k]@, i as int, tp.words@.len() as int, j as int),
                forall|t: Seq<char>| !has_key(keys@, t) ==> #[trigger] partial_score(ts, t, i as int, tp.words@.len() as int, j as int) == 0,
                forall|k: int| 0 <= k < scores@.len() ==> #[trigger] scores@[k] <= 0x2_0000_0000_0000_0000 * done,
            decreases tp.keywords@.len() - j,
        {
            let ghost old_keys = keys@;
            let ghost old_scores = scores@;
            let t = &tp.keywords[j];
            add_score(&mut keys, &mut scores, t, 2 * w);
            proof {
                assert forall|k: int| 0 <= k < keys@.len() implies in_words(ts, #[trigger] keys@[k]@) || in_keywords(ts, keys@[k]@) by {
                    if k < old_keys.len() {
                        assert(keys@[k]@ == old_keys[k]@);
                    } else {
                        assert(ts[i as int].keywords@[j as int]@ == keys@[k]@);
                    }
                }
                let wl = tp.words@.len() as int;
                assert forall|k: int| 0 <= k < keys@.len() implies #[trigger] scores@[k] == partial_score(ts, keys@[k]@, i as int, wl, j + 1) by {
                    lemma_partial_keyword(ts, keys@[k]@, i as int, j as int);
                    if k < old_keys.len() {
                        assert(keys@[k]@ == old_keys[k]@);
                    } else {
                        assert(!has_key(old_keys, t@));
                    }
                }
                assert forall|u: Seq<char>| !has_key(keys@, u) implies #[trigger] partial_score(ts, u, i as int, wl, j + 1) == 0 by {
                    lemma_partial_keyword(ts, u, i as int, j as int);
                    if has_key(old_keys, u) {
                        let k = choose|k: int| 0 <= k < old_keys.len() && #[trigger] old_keys[k]@ == u;
                        assert(keys@[k]@ == u);
                    }
                    assert(u != t@);
                }
                assert forall|k: int| 0 <= k < scores@.len() implies #[trigger] scores@[k] <= 0x2_0000_0000_0000_0000 * (done + 1) by {
                    if k < old_scores.len() {
                        assert(old_scores[k] <= 0x2_0000_0000_0000_0000 * done);
                    }
                }
                done = done + 1;
            }
            j = j + 1;
        }
        proof {
            assert forall|t: Seq<char>| #[trigger] term_score(ts, t, i + 1) == partial_score(ts, t, i as int, tp.words@.len() as int, tp.keywords@.len() as int) by {
                lemma_partial_ends(ts, t, i as int);
            }
        }
        i = i + 1;
    }
    (keys, scores)
}

/// `b` holds the highest score; the first such index.
pub open spec fn first_max(s: Seq<u128>, b: int) -> bool {
    &&& 0 <= b < s.len()
    &&& forall|k: int| 0 <= k < s.len() ==> #[trigger] s[k] <= s[b]
    &&& forall|k: int| 0 <= k < b ==> #[trigger] s[k] < s[b]
}

/// `b` holds the highest score apart from index `a`; the first such index.
pub open spec fn first_max_except(s: Seq<u128>, a: int, b: int) -> bool {
    &&& 0 <= b < s.len() && b != a
    &&& forall|k: int| 0 <= k < s.len() && k != a ==> #[trigger] s[k] <= s[b]
    &&& forall|k: int| 0 <= k < b && k != a ==> #[trigger] s[k] < s[b]
}

/// The word with its first character in upper case.
pub open spec fn capitalized(w: Seq<char>) -> Seq<char> {
    if w.len() == 0 {
        w
    } else {
        upper_of(w[0]) + w.subrange(1, w.len() as int)
    }
}

/// The name that the scored terms give: the catch-all when there is none; else
/// the best term, capitalized, followed by " & " and the runner-up when the
/// best scores at most twice the runner-up.
pub open spec fn name_for(keys: Seq<Vec<char>>, scores: Seq<u128>, name: Seq<char>) -> bool {
    if keys.len() == 0 {
        name == "Sonstiges"@
    } else {
        exists|a: int|
            #[trigger] first_max(scores, a) && if keys.len() == 1 {
                name == capitalized(keys[a]@)
            } else {
                exists|b: int|
                    #[trigger] first_max_except(scores, a, b) && name == if scores[a] <= 2 * scores[b] {
                        capitalized(keys[a]@) + " & "@ + capitalized(keys[b]@)
                    } else {
                        capitalized(keys[a]@)
                    }
            }
    }
}

fn capitalize(w: &Vec<char>) -> (r: Vec<char>)
    ensures
        r@ == capitalized(w@),
{
    if w.len() == 0 {
        return Vec::new();
    }
    let mut r = uppercase_char(w[0]);
    let ghost head = r@;
    let mut j: usize = 1;
    while j < w.len()
        invariant
            1 <= j <= w@.len(),
            r@ == head + w@.subrange(1, j as int),
        decreases w@.len() - j,
    {
        r.push(w[j]);
        j = j + 1;
    }
    r
}

fn append_chars(r: &mut Vec<char>, w: &Vec<char>)
    ensures
        final(r)@ == old(r)@ + w@,
{
    let mut j: usize = 0;
    while j < w.len()
        invariant
            j <= w@.len(),
            r@ == old(r)@ + w@.subrange(0, j as int),
        decreases w@.len() - j,
    {
        r.push(w[j]);
        j = j + 1;
    }
    assert(w@.subrange(0, w@.len() as int) =~= w@);
}

/// The name that scored terms give (see `name_for`).
pub fn name_from_scores(keys: &Vec<Vec<char>>, scores: &Vec<u128>) -> (r: String)
    requires
        keys@.len() == scores@.len(),
    ensures
        name_for(keys@, scores@, r@),
{
    if keys.len() == 0 {
        return catch_all_name();
    }
    let mut a: usize = 0;
    let mut k: usize = 1;
    while k < scores.len()
        invariant
            1 <= k <= scores@.len(),
            a < k,
            forall|x: int| 0 <= x < k ==> #[trigger] scores@[x] <= scores@[a as int],
            forall|x: int| 0 <= x < a ==> #[trigger] scores@[x] < scores@[a as int],
        decreases scores@.len() - k,
    {
        if scores[k] > scores[a] {
            a = k;
        }
        k = k + 1;
    }
    assert(first_max(scores@, a as int));
    let first = capitalize(&keys[a]);
    if keys.len() == 1 {
        return string_of(&first);
    }
    let mut b: usize = if a == 0 {
        1
    } else {
        0
    };
    let mut k: usize = 0;
    while k < scores.len()
        invariant
            k <= scores@.len(),
            scores@.len() >= 2,
            a < scores@.len(),
            b < scores@.len(),
            b != a,
            forall|x: int| 0 <= x < k && x != a ==> #[trigger] scores@[x] <= scores@[b as int],
            forall|x: int| 0 <= x < b && x != a ==> #[trigger] scores@[x] < scores@[b as int],
        decreases scores@.len() - k,
    {
        if k != a && scores[k] > scores[b] {
            b = k;
        }
        k = k + 1;
    }
    assert(first_max_except(scores@, a as int, b as int));
    let mut name = first;
    if scores[a] - scores[b] <= scores[b] {
        let sep = chars_of(" & ");
        append_chars(&mut name, &sep);
        let second = capitalize(&keys[b]);
        append_chars(&mut name, &second);
    }
    string_of(&name)
}

/// Heuristic name of a cluster from its topics' words and keywords.
pub fn find_cluster_name(topics: &Vec<NamingTopic>) -> (r: String)
    requires
        terms_before(topics@, topics@.len() as int) <= MAX_NAMING_TERMS,
    ensures
        exists|keys: Seq<Vec<char>>, scores: Seq<u128>| #[trigger] scores_fit(topics@, keys, scores) && #[trigger] name_for(keys, scores, r@),
        terms_before(topics@, topics@.len() as int) == 0 ==> r@ == "Sonstiges"@,
{
    let (keys, scores) = accumulate_terms(topics);
    let r = name_from_scores(&keys, &scores);
    assert(scores_fit(topics@, keys@, scores@) && name_for(keys@, scores@, r@));
    r
}

/// Name of a cluster: the catch-all for an outlier cluster, without looking at
/// its topics; else the heuristic name.
pub fn cluster_name(is_outlier: bool, topics: &Vec<NamingTopic>) -> (r: String)
    requires
        terms_before(topics@, topics@.len() as int) <= MAX_NAMING_TERMS,
    ensures
        is_outlier ==> r@ == "Sonstiges"@,
        !is_outlier ==> exists|keys: Seq<Vec<char>>, scores: Seq<u128>| #[trigger] scores_fit(topics@, keys, scores) && #[trigger] name_for(keys, scores, r@),
{
    if is_outlier {
        catch_all_name()
    } else {
        find_cluster_name(topics)
    }
}

/// How one call to the naming service ended.
#[derive(Clone, Copy, Debug, PartialEq, Eq, Structural)]
pub enum LlmOutcome {
    /// A success status with a readable answer.
    Named,
    /// Status 429 or 503.
    RateLimited,
    /// Any other status, or an answer that could not be read.
    Failed,
    /// The request itself failed (network, timeout).
    Unreachable,
}

/// What to do after a call to the naming service.
#[derive(Clone, Copy, Debug, PartialEq, Eq, Structural)]
pub enum NamingStep {
    /// Use the name the service gave.
    Accept,
    /// Wait this many milliseconds, then call again.
    Retry { delay_ms: u64 },
    /// Give up on the service and use the heuristic name.
    UseHeuristic,
}

/// Sorts an HTTP status, and whether the body could be read, into an outcome.
pub fn classify_status(status: u16, body_readable: bool) -> (r: LlmOutcome)
    ensures
        (status == 429 || status == 503) ==> r == LlmOutcome::RateLimited,
        (200 <= status <= 299 && body_readable) ==> r == LlmOutcome::Named,
        !(status == 429 || status == 503) && !(200 <= status <= 299 && body_readable) ==> r == LlmOutcome::Failed,
{
    if status == 429 || status == 503 {
        LlmOutcome::RateLimited
    } else if 200 <= status && status <= 299 && body_readable {
        LlmOutcome::Named
    } else {
        LlmOutcome::Failed
    }
}

pub open spec fn pow2(e: nat) -> nat
    decreases e,
{
    if e == 0 {
        1
    } else {
        2 * pow2((e - 1) as nat)
    }
}

/// The wait before retry number `retry + 1`: the base delay doubled `retry`
/// times, held at `u64::MAX`.
pub open spec fn backoff_of(base_delay_ms: u64, retry: u32) -> int {
    if base_delay_ms * pow2(retry as nat) > u64::MAX {
        u64::MAX as int
    } else {
        base_delay_ms * pow2(retry as nat)
    }
}

pub fn backoff_delay(base_delay_ms: u64, retry: u32) -> (r: u64)
    ensures
        r == backoff_of(base_delay_ms, retry),
{
    let mut d: u64 = base_delay_ms;
    let mut i: u32 = 0;
    let mut capped = false;
    assert(pow2(0nat) == 1);
    assert(base_delay_ms * pow2(0nat) == base_delay_ms);
    while i < retry
        invariant
            i <= retry,
            !capped ==> d == base_delay_ms * pow2(i as nat),
            capped ==> d == u64::MAX && base_delay_ms * pow2(i as nat) > u64::MAX,
        decreases retry - i,
    {
        proof {
            assert(pow2((i + 1) as nat) == 2 * pow2(i as nat));
            assert(base_delay_ms * pow2((i + 1) as nat) == 2 * (base_delay_ms * pow2(i as nat))) by (nonlinear_arith)
                requires
                    pow2((i + 1) as nat) == 2 * pow2(i as nat),
            ;
        }
        if capped || d > u64::MAX / 2 {
            d = u64::MAX;
            capped = true;
        } else {
            d = d * 2;
        }
        i = i + 1;
    }
    d
}

/// The retry policy: accept a name; on a rate limit (429 or 503) wait
/// `backoff_of(base_delay_ms, retry_count)` and try again while fewer than
/// `max_retries` retries were made; on any other failure, or once the retries
/// are spent, fall back to the heuristic name.
pub fn next_naming_step(outcome: LlmOutcome, retry_count: u32, max_retries: u32, base_delay_ms: u64) -> (r: NamingStep)
    ensures
        outcome == LlmOutcome::Named ==> r == NamingStep::Accept,
        (outcome == LlmOutcome::Failed || outcome == LlmOutcome::Unreachable) ==> r == NamingStep::UseHeuristic,
        outcome == LlmOutcome::RateLimited && retry_count < max_retries ==> r == (NamingStep::Retry {
            delay_ms: backoff_of(base_delay_ms, retry_count) as u64,
        }),
        outcome == LlmOutcome::RateLimited && retry_count >= max_retries ==> r == NamingStep::UseHeuristic,
{
    match outcome {
        LlmOutcome::Named => NamingStep::Accept,
        LlmOutcome::Failed => NamingStep::UseHeuristic,
        LlmOutcome::Unreachable => NamingStep::UseHeuristic,
        LlmOutcome::RateLimited => {
            if retry_count < max_retries {
                NamingStep::Retry { delay_ms: backoff_delay(base_delay_ms, retry_count) }
            } else {
                NamingStep::UseHeuristic
            }
        },
    }
}

/// The name a cluster ends with: the service's answer when it gave one, the
/// heuristic name otherwise.
pub fn final_cluster_name(llm_name: Option<String>, heuristic_name: String) -> (r: String)
    ensures
        llm_name is Some ==> r@ == llm_name->Some_0@,
        llm_name is None ==> r@ == heuristic_name@,
{
    match llm_name {
        Some(n) => n,
        None => heuristic_name,
    }
}

/// Whether the naming calls pause before call number `call_index` (from 0):
/// before every fiftieth call but the first.
pub fn pause_before_call(call_index: usize) -> (r: bool)
    ensures
        r == (call_index > 0 && call_index % 50 == 0),
{
    call_index > 0 && call_index % 50 == 0
}

/// The characters of `s` other than double and single quotes.
pub open spec fn without_quotes(s: Seq<char>) -> Seq<char>
    decreases s.len(),
{
    if s.len() == 0 {
        s
    } else if s.last() == '"' || s.last() == '\'' {
        without_quotes(s.drop_last())
    } else {
        without_quotes(s.drop_last()).push(s.last())
    }
}

/// The service's answer as a name: trimmed, with its quotes taken out.
pub fn clean_llm_name(content: &str) -> (r: String)
    ensures
        exists|t: Seq<char>| #[trigger] trimmed(content@, t) && r@ == without_quotes(t),
{
    let t = trim_text(content);
    let cs = chars_of(t.as_str());
    let mut out: Vec<char> = Vec::new();
    let mut i: usize = 0;
    while i < cs.len()
        invariant
            i <= cs@.len(),
            out@ == without_quotes(cs@.subrange(0, i as int)),
        decreases cs@.len() - i,
    {
        proof {
            assert(cs@.subrange(0, i + 1).drop_last() =~= cs@.subrange(0, i as int));
        }
        let c = cs[i];
        if c != '"' && c != '\'' {
            out.push(c);
        }
        i = i + 1;
    }
    assert(cs@.subrange(0, cs@.len() as int) =~= cs@);
    assert(trimmed(content@, t@));
    string_of(&out)
}

/// One occurrence of a topic as stored: timing may be missing.
pub struct TopicOccurrence {
    pub episode_number: u32,
    pub duration_sec: Option<u32>,
    pub position_sec: Option<u32>,
}

/// One occurrence of a topic with its timing filled in.
#[derive(Clone, Copy, Debug, PartialEq, Eq, Structural)]
pub struct ClusterTopicOccurrence {
    pub episode_number: u32,
    pub duration_sec: u32,
    pub position_sec: u32,
}

pub open spec fn filled(o: TopicOccurrence, default_topic_duration_sec: u32) -> ClusterTopicOccurrence {
    ClusterTopicOccurrence {
        episode_number: o.episode_number,
        duration_sec: match o.duration_sec {
            Some(d) => d,
            None => default_topic_duration_sec,
        },
        position_sec: match o.position_sec {
            Some(p) => p,
            None => 0,
        },
    }
}

/// The occurrences of a topic with missing timing filled in (default
/// duration, position 0); a topic without recorded occurrences gets one per
/// episode it appears in.
pub fn normalized_occurrences(
    occurrences: &Option<Vec<TopicOccurrence>>,
    episodes: &Vec<u32>,
    default_topic_duration_sec: u32,
) -> (r: Vec<ClusterTopicOccurrence>)
    ensures
        (occurrences is Some && occurrences->Some_0@.len() > 0) ==> r@.len() == occurrences->Some_0@.len() && forall|i: int|
            0 <= i < r@.len() ==> #[trigger] r@[i] == filled(occurrences->Some_0@[i], default_topic_duration_sec),
        !(occurrences is Some && occurrences->Some_0@.len() > 0) ==> r@.len() == episodes@.len() && forall|i: int|
            0 <= i < r@.len() ==> #[trigger] r@[i] == (ClusterTopicOccurrence {
                episode_number: episodes@[i],
                duration_sec: default_topic_duration_sec,
                position_sec: 0,
            }),
{
    let mut r: Vec<ClusterTopicOccurrence> = Vec::new();
    match occurrences {
        Some(occ) => {
            if occ.len() > 0 {
                let mut i: usize = 0;
                while i < occ.len()
                    invariant
                        i <= occ@.len(),
                        r@.len() == i,
                        forall|t: int| 0 <= t < i ==> #[trigger] r@[t] == filled(occ@[t], default_topic_duration_sec),
                    decreases occ@.len() - i,
                {
                    let o = &occ[i];
                    let d = match o.duration_sec {
                        Some(d) => d,
                        None => default_topic_duration_sec,
                    };
                    let p = match o.position_sec {
                        Some(p) => p,
                        None => 0,
                    };
                    r.push(ClusterTopicOccurrence { episode_number: o.episode_number, duration_sec: d, position_sec: p });
                    i = i + 1;
                }
                return r;
            }
        },
        None => {},
    }
    let mut i: usize = 0;
    while i < episodes.len()
        invariant
            i <= episodes@.len(),
            r@.len() == i,
            forall|t: int| 0 <= t < i ==> #[trigger] r@[t] == (ClusterTopicOccurrence {
                episode_number: episodes@[t],
                duration_sec: default_topic_duration_sec,
                position_sec: 0,
            }),
        decreases episodes@.len() - i,
    {
        r.push(ClusterTopicOccurrence { episode_number: episodes[i], duration_sec: default_topic_duration_sec, position_sec: 0 });
        i = i + 1;
    }
    r
}

pub open spec fn duration_total(os: Seq<ClusterTopicOccurrence>) -> int
    decreases os.len(),
{
    if os.len() == 0 {
        0
    } else {
        duration_total(os.drop_last()) + os.last().duration_sec
    }
}

/// Relevance of a topic in seconds: the sum of its occurrences' durations.
pub fn topic_relevance_sec(
    occurrences: &Option<Vec<TopicOccurrence>>,
    episodes: &Vec<u32>,
    default_topic_duration_sec: u32,
) -> (r: u64)
    requires
        occurrences is Some ==> occurrences->Some_0@.len() <= u32::MAX,
        episodes@.len() <= u32::MAX,
    ensures
        exists|os: Seq<ClusterTopicOccurrence>| #[trigger] duration_total(os) == r && ((occurrences is Some
            && occurrences->Some_0@.len() > 0) ==> os.len() == occurrences->Some_0@.len() && forall|i: int|
            0 <= i < os.len() ==> #[trigger] os[i] == filled(occurrences->Some_0@[i], default_topic_duration_sec)) && (!(
        occurrences is Some && occurrences->Some_0@.len() > 0) ==> os.len() == episodes@.len() && forall|i: int|
            0 <= i < os.len() ==> #[trigger] os[i] == (ClusterTopicOccurrence {
                episode_number: episodes@[i],
                duration_sec: default_topic_duration_sec,
                position_sec: 0,
            })),
{
    let os = normalized_occurrences(occurrences, episodes, default_topic_duration_sec);
    let mut total: u64 = 0;
    let mut i: usize = 0;
    while i < os.len()
        invariant
            i <= os@.len(),
            os@.len() <= u32::MAX,
            total == duration_total(os@.subrange(0, i as int)),
            total <= i * 0xFFFF_FFFF,
        decreases os@.len() - i,
    {
        proof {
            assert(os@.subrange(0, i + 1).drop_last() =~= os@.subrange(0, i as int));
            assert((i + 1) * 0xFFFF_FFFF <= 0x1_0000_0000 * 0xFFFF_FFFF) by (nonlinear_arith)
                requires
                    i < 0x1_0000_0000,
            ;
        }
        total = total + os[i].duration_sec as u64;
        i = i + 1;
    }
    assert(os@.subrange(0, os@.len() as int) =~= os@);
    assert(duration_total(os@) == total);
    total
}

} // verus!
