//! Splitting a character sequence on a fixed delimiter, the way the log file
//! format needs it: at the leftmost occurrence first, with no overlap.

use vstd::prelude::*;

verus! {

/// The delimiter `d` occurs in `s` starting at position `i`.
pub open spec fn match_at(s: Seq<char>, d: Seq<char>, i: int) -> bool {
    0 <= i && i + d.len() <= s.len() && s.subrange(i, i + d.len() as int) == d
}

/// Position of the leftmost occurrence of `d` in `s`, or `-1` when none.
pub open spec fn first_match(s: Seq<char>, d: Seq<char>) -> int
    decreases s.len(),
{
    if match_at(s, d, 0) {
        0
    } else if s.len() == 0 {
        -1
    } else {
        let r = first_match(s.skip(1), d);
        if r < 0 {
            -1
        } else {
            r + 1
        }
    }
}

/// The pieces of `s` between consecutive leftmost occurrences of `d`.
/// A sequence without an occurrence is one piece; each occurrence found
/// adds the piece before it and continues after the occurrence.
pub open spec fn split_on(s: Seq<char>, d: Seq<char>) -> Seq<Seq<char>>
    decreases s.len(),
{
    let i = first_match(s, d);
    if d.len() == 0 || i < 0 || i + d.len() > s.len() {
        seq![s]
    } else {
        seq![s.subrange(0, i)] + split_on(s.skip(i + d.len() as int), d)
    }
}

proof fn lemma_match_at_skip(s: Seq<char>, d: Seq<char>, i: int)
    requires
        s.len() >= 1,
        i >= 0,
    ensures
        match_at(s, d, i + 1) <==> match_at(s.skip(1), d, i),
{
    if match_at(s, d, i + 1) {
        assert(s.skip(1).subrange(i, i + d.len() as int) =~= d);
    }
    if match_at(s.skip(1), d, i) {
        assert(s.subrange(i + 1, i + 1 + d.len() as int) =~= d);
    }
}

/// `first_match` finds an occurrence exactly when one exists, and then the
/// leftmost one.
pub proof fn lemma_first_match_props(s: Seq<char>, d: Seq<char>)
    ensures
        first_match(s, d) >= -1,
        first_match(s, d) == -1 ==> forall|i: int| !match_at(s, d, i),
        first_match(s, d) >= 0 ==> match_at(s, d, first_match(s, d)) && (forall|j: int|
            0 <= j < first_match(s, d) ==> !match_at(s, d, j)),
    decreases s.len(),
{
    if match_at(s, d, 0) {
    } else if s.len() == 0 {
        assert forall|i: int| !match_at(s, d, i) by {
            if match_at(s, d, i) {
                assert(i == 0 && d.len() == 0);
                assert(s.subrange(0, 0) =~= d);
                assert(match_at(s, d, 0));
            }
        }
    } else {
        lemma_first_match_props(s.skip(1), d);
        let r = first_match(s.skip(1), d);
        if r < 0 {
            assert forall|i: int| !match_at(s, d, i) by {
                if match_at(s, d, i) {
                    if i >= 1 {
                        lemma_match_at_skip(s, d, i - 1);
                        assert(match_at(s.skip(1), d, i - 1));
                    }
                }
            }
        } else {
            lemma_match_at_skip(s, d, r);
            assert(match_at(s, d, r + 1));
            assert forall|j: int| 0 <= j < r + 1 implies !match_at(s, d, j) by {
                if match_at(s, d, j) && j >= 1 {
                    lemma_match_at_skip(s, d, j - 1);
                    assert(match_at(s.skip(1), d, j - 1));
                }
            }
        }
    }
}

/// Splitting a sequence that starts with a piece `f` followed by the
/// delimiter yields `f` and then the split of the rest, as long as no
/// occurrence of the delimiter starts inside `f` (it may lie wholly in `f`,
/// or straddle `f`'s end into the delimiter that follows).
pub proof fn lemma_split_on_append_at(f: Seq<char>, d: Seq<char>, t: Seq<char>)
    requires
        d.len() >= 1,
        forall|j: int| 0 <= j < f.len() ==> !match_at(f + d + t, d, j),
    ensures
        split_on(f + d + t, d) == seq![f] + split_on(t, d),
{
    let s = f + d + t;
    assert(s.subrange(f.len() as int, f.len() + d.len() as int) =~= d);
    assert(match_at(s, d, f.len() as int));
    lemma_first_match_props(s, d);
    let i = first_match(s, d);
    assert(i != -1);
    assert(i >= f.len()) by {
        if i < f.len() {
            assert(!match_at(s, d, i));
        }
    }
    assert(i == f.len()) by {
        if i > f.len() {
            assert(!match_at(s, d, f.len() as int));
        }
    }
    assert(s.subrange(0, i) =~= f);
    assert(s.skip(i + d.len() as int) =~= t);
    assert(split_on(s, d) == seq![f] + split_on(t, d));
}

/// The special case of `lemma_split_on_append_at` where `f` nowhere holds
/// the delimiter's first character.
pub proof fn lemma_split_on_append(f: Seq<char>, d: Seq<char>, t: Seq<char>)
    requires
        d.len() >= 1,
        !f.contains(d[0]),
    ensures
        split_on(f + d + t, d) == seq![f] + split_on(t, d),
{
    let s = f + d + t;
    assert forall|j: int| 0 <= j < f.len() implies !match_at(s, d, j) by {
        if match_at(s, d, j) {
            assert(s.subrange(j, j + d.len() as int)[0] == d[0]);
            assert(s[j] == d[0]);
            assert(f[j] == d[0]);
            assert(f.contains(d[0]));
        }
    }
    lemma_split_on_append_at(f, d, t);
}

/// A sequence without any occurrence of the delimiter splits as one single
/// piece.
pub proof fn lemma_split_on_whole_at(s: Seq<char>, d: Seq<char>)
    requires
        d.len() >= 1,
        forall|j: int| !match_at(s, d, j),
    ensures
        split_on(s, d) == seq![s],
{
    lemma_first_match_props(s, d);
    assert(first_match(s, d) == -1);
}

/// The special case of `lemma_split_on_whole_at` where `s` nowhere holds
/// the delimiter's first character.
pub proof fn lemma_split_on_whole(s: Seq<char>, d: Seq<char>)
    requires
        d.len() >= 1,
        !s.contains(d[0]),
    ensures
        split_on(s, d) == seq![s],
{
    assert forall|j: int| !match_at(s, d, j) by {
        if match_at(s, d, j) {
            assert(s.subrange(j, j + d.len() as int)[0] == d[0]);
            assert(s[j] == d[0]);
            assert(s.contains(d[0]));
        }
    }
    lemma_split_on_whole_at(s, d);
}

fn delim_matches_at(s: &str, d: &str, i: usize) -> (r: bool)
    requires
        i + d@.len() <= s@.len() <= usize::MAX,
    ensures
        r == match_at(s@, d@, i as int),
{
    let dl = d.unicode_len();
    let mut k: usize = 0;
    while k < dl
        invariant
            i + dl <= s@.len() <= usize::MAX,
            dl == d@.len(),
            k <= dl,
            forall|k2: int| 0 <= k2 < k ==> s@[i + k2] == d@[k2],
        decreases dl - k,
    {
        if s.get_char(i + k) != d.get_char(k) {
            proof {
                if match_at(s@, d@, i as int) {
                    assert(s@.subrange(i as int, i + dl as int)[k as int] == s@[i + k]);
                }
            }
            return false;
        }
        k += 1;
    }
    proof {
        assert(s@.subrange(i as int, i + dl as int) =~= d@);
    }
    true
}

/// Position of the leftmost occurrence of `d` in `s`, when there is one.
pub fn find_delim(s: &str, d: &str) -> (r: Option<usize>)
    requires
        d@.len() >= 1,
    ensures
        match r {
            Some(i) => i == first_match(s@, d@) && match_at(s@, d@, i as int),
            None => first_match(s@, d@) == -1,
        },
{
    let sl = s.unicode_len();
    let dl = d.unicode_len();
    if dl > sl {
        proof {
            lemma_first_match_props(s@, d@);
            if first_match(s@, d@) >= 0 {
                assert(match_at(s@, d@, first_match(s@, d@)));
            }
        }
        return None;
    }
    let mut i: usize = 0;
    while i <= sl - dl
        invariant
            dl == d@.len(),
            sl == s@.len(),
            1 <= dl <= sl,
            i <= sl - dl + 1,
            forall|j: int| 0 <= j < i ==> !match_at(s@, d@, j),
        decreases sl - dl - i + 1,
    {
        if delim_matches_at(s, d, i) {
            proof {
                lemma_first_match_props(s@, d@);
                let m = first_match(s@, d@);
                assert(m != -1);
                assert(m >= 0);
                if m < i {
                    assert(!match_at(s@, d@, m));
                }
                if m > i {
                    assert(!match_at(s@, d@, i as int));
                }
            }
            return Some(i);
        }
        i += 1;
    }
    proof {
        lemma_first_match_props(s@, d@);
        if first_match(s@, d@) >= 0 {
            let m = first_match(s@, d@);
            assert(match_at(s@, d@, m));
            assert(m + dl <= sl);
            assert(!match_at(s@, d@, m));
        }
    }
    None
}

/// The pieces of `s` between consecutive leftmost occurrences of `d`,
/// in order, as owned strings.
pub fn split_str(s: &str, d: &str) -> (r: Vec<String>)
    requires
        d@.len() >= 1,
    ensures
        r.deep_view() == split_on(s@, d@),
    decreases s@.len(),
{
    match find_delim(s, d) {
        None => {
            let mut v: Vec<String> = Vec::new();
            v.push(String::from_str(s));
            proof {
                assert(v.deep_view() =~= split_on(s@, d@));
            }
            v
        },
        Some(i) => {
            let sl = s.unicode_len();
            let dl = d.unicode_len();
            let head = s.substring_char(0, i);
            let tail = s.substring_char(i + dl, sl);
            proof {
                assert(tail@ =~= s@.skip(i + dl as int));
            }
            let mut rest = split_str(tail, d);
            rest.insert(0, String::from_str(head));
            proof {
                assert(rest.deep_view() =~= split_on(s@, d@));
            }
            rest
        },
    }
}

} // verus!
