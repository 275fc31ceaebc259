//! Which topics clustering takes: no intro or outro, and none that appear
//! in nearly every episode.

use vstd::prelude::*;

use crate::text::{chars_of, lower_of, lowercase};

verus! {

/// `n` occurs in `h` as a run of consecutive characters.
pub open spec fn contains_seq(h: Seq<char>, n: Seq<char>) -> bool {
    exists|i: int| 0 <= i && i + n.len() <= h.len() && #[trigger] h.subrange(i, i + n.len()) == n
}

fn contains_chars(h: &Vec<char>, n: &Vec<char>) -> (r: bool)
    ensures
        r == contains_seq(h@, n@),
{
    if n.len() > h.len() {
        proof {
            assert forall|i: int| 0 <= i && i + n@.len() <= h@.len() implies #[trigger] h@.subrange(i, i + n@.len()) != n@ by {
            }
        }
        return false;
    }
    if n.len() == 0 {
        assert(h@.subrange(0, 0 + n@.len() as int) =~= n@);
        return true;
    }
    let hl = h.len();
    let last = hl - n.len();
    let mut i: usize = 0;
    while i <= last
        invariant
            last == h@.len() - n@.len(),
            0 < n@.len() <= h@.len(),
            hl == h@.len(),
            i <= last + 1,
            forall|s: int| 0 <= s < i ==> #[trigger] h@.subrange(s, s + n@.len()) != n@,
        decreases last + 1 - i,
    {
        let mut j: usize = 0;
        let mut same = true;
        while j < n.len()
            invariant
                i <= last,
                last == h@.len() - n@.len(),
                0 < n@.len() <= h@.len(),
                hl == h@.len(),
                j <= n@.len(),
                same == forall|t: int| 0 <= t < j ==> h@[i + t] == n@[t],
            decreases n@.len() - j,
        {
            if h[i + j] != n[j] {
                same = false;
            }
            j = j + 1;
        }
        if same {
            assert(h@.subrange(i as int, i + n@.len()) =~= n@);
            return true;
        }
        proof {
            let t = choose|t: int| 0 <= t < n@.len() && h@[i + t] != n@[t];
            assert(h@.subrange(i as int, i + n@.len())[t] != n@[t]);
        }
        i = i + 1;
    }
    false
}

/// Whether a topic text names an intro or an outro, in any case.
pub fn is_intro_outro(text: &str) -> (r: bool)
    ensures
        r == (contains_seq(lower_of(text@), "intro"@) || contains_seq(lower_of(text@), "outro"@)),
{
    let low = lowercase(text);
    let cs = chars_of(low.as_str());
    let intro = chars_of("intro");
    let outro = chars_of("outro");
    contains_chars(&cs, &intro) || contains_chars(&cs, &outro)
}

/// Whether a topic that appears in `n_episodes` of `total_episodes` episodes
/// reaches the share `share_permille` (thousandths).
pub fn is_ubiquitous(n_episodes: usize, total_episodes: usize, share_permille: u64) -> (r: bool)
    ensures
        r == (n_episodes * 1000 >= share_permille * total_episodes),
{
    let a = n_episodes as u128;
    let b = share_permille as u128;
    let c = total_episodes as u128;
    assert(a * 1000 <= 0xFFFF_FFFF_FFFF_FFFF * 1000) by (nonlinear_arith)
        requires
            a <= 0xFFFF_FFFF_FFFF_FFFF,
    ;
    assert(b * c <= 0xFFFF_FFFF_FFFF_FFFF * 0xFFFF_FFFF_FFFF_FFFF) by (nonlinear_arith)
        requires
            b <= 0xFFFF_FFFF_FFFF_FFFF,
            c <= 0xFFFF_FFFF_FFFF_FFFF,
    ;
    a * 1000 >= b * c
}

pub open spec fn in_some(lists: Seq<Vec<u32>>, x: u32) -> bool {
    exists|i: int| 0 <= i < lists.len() && #[trigger] lists[i]@.contains(x)
}

/// `d` lists, once each, the ids that occur in `lists`.
pub open spec fn distinct_cover(lists: Seq<Vec<u32>>, d: Seq<u32>) -> bool {
    &&& d.no_duplicates()
    &&& forall|x: u32| #[trigger] d.contains(x) <==> in_some(lists, x)
}

/// The episode ids that occur in any of the lists, once each, in order of
/// first appearance.
pub fn distinct_episodes(lists: &Vec<Vec<u32>>) -> (d: Vec<u32>)
    ensures
        distinct_cover(lists@, d@),
{
    let mut d: Vec<u32> = Vec::new();
    let mut i: usize = 0;
    while i < lists.len()
        invariant
            i <= lists@.len(),
            d@.no_duplicates(),
            forall|x: u32| #[trigger] d@.contains(x) <==> in_some(lists@.subrange(0, i as int), x),
        decreases lists@.len() - i,
    {
        let l = &lists[i];
        let ghost d_before = d@;
        let mut j: usize = 0;
        while j < l.len()
            invariant
                j <= l@.len(),
                i < lists@.len(),
                *l == lists@[i as int],
                d@.no_duplicates(),
                forall|x: u32| #[trigger] d@.contains(x) <==> (d_before.contains(x) || l@.subrange(0, j as int).contains(x)),
            decreases l@.len() - j,
        {
            let x = l[j];
            let mut found = false;
            let mut k: usize = 0;
            while k < d.len()
                invariant
                    k <= d@.len(),
                    found == exists|t: int| 0 <= t < k && d@[t] == x,
                decreases d@.len() - k,
            {
                if d[k] == x {
                    found = true;
                }
                k = k + 1;
            }
            let ghost d0 = d@;
            if !found {
                d.push(x);
            }
            proof {
                assert(l@.subrange(0, j + 1) =~= l@.subrange(0, j as int).push(x));
                assert forall|y: u32| #[trigger] d@.contains(y) <==> (d_before.contains(y) || l@.subrange(0, j + 1).contains(y)) by {
                    if y == x {
                        assert(l@.subrange(0, j + 1)[j as int] == x);
                        if !found {
                            assert(d@[d0.len() as int] == x);
                        }
                    } else {
                        if d@.contains(y) {
                            let t = choose|t: int| 0 <= t < d@.len() && d@[t] == y;
                            assert(d0[t] == y);
                        }
                        if l@.subrange(0, j + 1).contains(y) {
                            let t = choose|t: int| 0 <= t < j + 1 && #[trigger] l@.subrange(0, j + 1)[t] == y;
                            assert(l@.subrange(0, j as int)[t] == y);
                        }
                        if d0.contains(y) {
                            let t = choose|t: int| 0 <= t < d0.len() && d0[t] == y;
                            assert(d@[t] == y);
                        }
                    }
                }
            }
            j = j + 1;
        }
        proof {
            assert(l@.subrange(0, l@.len() as int) =~= l@);
            assert forall|x: u32| #[trigger] d@.contains(x) <==> in_some(lists@.subrange(0, i + 1), x) by {
                let pre = lists@.subrange(0, i as int);
                let nxt = lists@.subrange(0, i + 1);
                if in_some(nxt, x) {
                    let t = choose|t: int| 0 <= t < nxt.len() && #[trigger] nxt[t]@.contains(x);
                    if t < i {
                        assert(pre[t] == nxt[t]);
                    }
                }
                if in_some(pre, x) {
                    let t = choose|t: int| 0 <= t < pre.len() && #[trigger] pre[t]@.contains(x);
                    assert(nxt[t] == pre[t]);
                }
                if l@.contains(x) {
                    assert(nxt[i as int] == *l);
                }
            }
        }
        i = i + 1;
    }
    assert(lists@.subrange(0, lists@.len() as int) =~= lists@);
    d
}

/// Whether topic `i` stays: it is no intro or outro, and it appears in less
/// than the share `share_permille` of all `total` episodes.
pub open spec fn keeps(texts: Seq<String>, episodes: Seq<Vec<u32>>, share_permille: u64, total: int, i: int) -> bool {
    !(contains_seq(lower_of(texts[i]@), "intro"@) || contains_seq(lower_of(texts[i]@), "outro"@)) && !(episodes[i]@.len()
        * 1000 >= share_permille * total)
}

/// The indices below `k` of the topics that stay, ascending.
pub open spec fn kept_below(texts: Seq<String>, episodes: Seq<Vec<u32>>, share_permille: u64, total: int, k: int) -> Seq<usize>
    decreases k,
{
    if k <= 0 {
        Seq::empty()
    } else if keeps(texts, episodes, share_permille, total, k - 1) {
        kept_below(texts, episodes, share_permille, total, k - 1).push((k - 1) as usize)
    } else {
        kept_below(texts, episodes, share_permille, total, k - 1)
    }
}

/// The topics that clustering takes: the indices of those that are no intro
/// or outro and appear in less than `share_permille` thousandths of all
/// episodes (counted over every topic, at least 1).
pub fn filter_topics(texts: &Vec<String>, episodes: &Vec<Vec<u32>>, share_permille: u64) -> (r: Vec<usize>)
    requires
        texts@.len() == episodes@.len(),
    ensures
        exists|d: Seq<u32>|
            #[trigger] distinct_cover(episodes@, d) && r@ == kept_below(
                texts@,
                episodes@,
                share_permille,
                if d.len() > 0 {
                    d.len() as int
                } else {
                    1
                },
                texts@.len() as int,
            ),
{
    let d = distinct_episodes(episodes);
    let total: usize = if d.len() > 0 {
        d.len()
    } else {
        1
    };
    let mut r: Vec<usize> = Vec::new();
    let mut i: usize = 0;
    while i < texts.len()
        invariant
            i <= texts@.len(),
            texts@.len() == episodes@.len(),
            r@ == kept_below(texts@, episodes@, share_permille, total as int, i as int),
        decreases texts@.len() - i,
    {
        let drop = is_intro_outro(texts[i].as_str()) || is_ubiquitous(episodes[i].len(), total, share_permille);
        if !drop {
            r.push(i);
        }
        i = i + 1;
    }
    assert(distinct_cover(episodes@, d@));
    r
}

/// Every topic that the filter keeps passes it: no kept topic names an intro
/// or outro, and none reaches the ubiquity share; the kept indices are in range.
pub proof fn lemma_kept_topics_pass(texts: Seq<String>, episodes: Seq<Vec<u32>>, share_permille: u64, total: int, k: int)
    requires
        0 <= k <= usize::MAX,
    ensures
        forall|t: int|
            0 <= t < kept_below(texts, episodes, share_permille, total, k).len() ==> {
                let i = #[trigger] kept_below(texts, episodes, share_permille, total, k)[t] as int;
                0 <= i < k && keeps(texts, episodes, share_permille, total, i)
            },
    decreases k,
{
    if k > 0 {
        lemma_kept_topics_pass(texts, episodes, share_permille, total, k - 1);
        let prev = kept_below(texts, episodes, share_permille, total, k - 1);
        assert forall|t: int| 0 <= t < kept_below(texts, episodes, share_permille, total, k).len() implies {
            let i = #[trigger] kept_below(texts, episodes, share_permille, total, k)[t] as int;
            0 <= i < k && keeps(texts, episodes, share_permille, total, i)
        } by {
            if t < prev.len() {
                assert(kept_below(texts, episodes, share_permille, total, k)[t] == prev[t]);
                let i = prev[t] as int;
                assert(0 <= i < k - 1 && keeps(texts, episodes, share_permille, total, i));
            } else {
                assert(keeps(texts, episodes, share_permille, total, k - 1));
                assert(kept_below(texts, episodes, share_permille, total, k) == prev.push((k - 1) as usize));
                assert(kept_below(texts, episodes, share_permille, total, k)[t] == (k - 1) as usize);
            }
        }
    }
}

} // verus!
