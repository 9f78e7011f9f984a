//! The render tokens of the game and how they decode.

use vstd::prelude::*;

use crate::posn::digit_char;

verus! {

/// The render token of a square that has not been opened.
pub open spec fn blank_token() -> Seq<char> {
    "square blank"@
}

/// The render token of an opened square whose clue is `d`.
pub open spec fn open_token(d: nat) -> Seq<char> {
    "square open"@ + seq![digit_char(d)]
}

/// Entry `k` of the decoding table: the blank token, the flagged token, then
/// the nine clue tokens for 0 to 8.
pub open spec fn rep_entry(k: int) -> (Seq<char>, char) {
    if k == 0 {
        (blank_token(), '_')
    } else if k == 1 {
        ("square bombflagged"@, 'f')
    } else {
        (open_token((k - 2) as nat), digit_char((k - 2) as nat))
    }
}

/// The decoding table holds the token `s`.
pub open spec fn is_rep_key(s: Seq<char>) -> bool {
    exists|k: int| 0 <= k < 11 && #[trigger] rep_entry(k).0 == s
}

/// The entry of the decoding table that holds the token `s`.
pub open spec fn rep_index(s: Seq<char>) -> int {
    choose|k: int| 0 <= k < 11 && #[trigger] rep_entry(k).0 == s
}

/// What the decoding table maps the token `s` to, if it holds it.
pub open spec fn rep_of(s: Seq<char>) -> Option<char> {
    if is_rep_key(s) {
        Some(rep_entry(rep_index(s)).1)
    } else {
        None
    }
}

/// The value of a decimal digit character.
pub open spec fn digit_value(c: char) -> Option<nat> {
    if c == '0' { Some(0) }
    else if c == '1' { Some(1) }
    else if c == '2' { Some(2) }
    else if c == '3' { Some(3) }
    else if c == '4' { Some(4) }
    else if c == '5' { Some(5) }
    else if c == '6' { Some(6) }
    else if c == '7' { Some(7) }
    else if c == '8' { Some(8) }
    else if c == '9' { Some(9) }
    else { None }
}

/// The clue that a token shows, if it shows one.
pub open spec fn token_clue(s: Seq<char>) -> Option<nat> {
    match rep_of(s) {
        Some(c) => digit_value(c),
        None => None,
    }
}

/// `pat` occurs in `s` at position `i`.
pub open spec fn occurs_at(s: Seq<char>, pat: Seq<char>, i: int) -> bool {
    0 <= i && i + pat.len() <= s.len() && s.subrange(i, i + pat.len()) == pat
}

/// The token of a square whose mine went off.
pub open spec fn is_mine_token(s: Seq<char>) -> bool {
    exists|i: int| occurs_at(s, "bombdeath"@, i)
}

/// No two entries of the decoding table share a token.
pub proof fn lemma_rep_keys_distinct(k1: int, k2: int)
    requires
        0 <= k1 < 11,
        0 <= k2 < 11,
        rep_entry(k1).0 == rep_entry(k2).0,
    ensures
        k1 == k2,
{
    reveal_strlit("square blank");
    reveal_strlit("square bombflagged");
    reveal_strlit("square open");
    let s1 = rep_entry(k1).0;
    let s2 = rep_entry(k2).0;
    if k1 != k2 {
        if k1 == 1 || k2 == 1 {
            assert(s1.len() != s2.len());
        } else if k1 == 0 || k2 == 0 {
            assert(s1[7] != s2[7]);
        } else {
            assert(s1[11] != s2[11]);
        }
    }
}

/// Each table entry is what `rep_of` gives for its own token.
pub proof fn lemma_rep_of_entry(k: int)
    requires
        0 <= k < 11,
    ensures
        rep_of(rep_entry(k).0) == Some(rep_entry(k).1),
{
    let s = rep_entry(k).0;
    assert(0 <= k < 11 && rep_entry(k).0 == s);
    assert(is_rep_key(s));
    lemma_rep_keys_distinct(rep_index(s), k);
}

/// The blank token shows no clue.
pub proof fn lemma_blank_token_no_clue()
    ensures
        token_clue(blank_token()) is None,
{
    lemma_rep_of_entry(0);
}

/// The table that decodes a square's render token: the blank token to '_',
/// the flagged token to 'f', and each clue token to its digit.
pub fn get_reps() -> (r: Vec<(String, char)>)
    ensures
        r@.len() == 11,
        forall|k: int| 0 <= k < 11 ==> (#[trigger] r@[k].0@, r@[k].1) == rep_entry(k),
{
    proof {
        reveal_strlit("square open");
        reveal_strlit("square open0");
        reveal_strlit("square open1");
        reveal_strlit("square open2");
        reveal_strlit("square open3");
        reveal_strlit("square open4");
        reveal_strlit("square open5");
        reveal_strlit("square open6");
        reveal_strlit("square open7");
        reveal_strlit("square open8");
    }
    let mut reps: Vec<(String, char)> = Vec::new();
    reps.push((String::from_str("square blank"), '_'));
    reps.push((String::from_str("square bombflagged"), 'f'));
    reps.push((String::from_str("square open0"), '0'));
    reps.push((String::from_str("square open1"), '1'));
    reps.push((String::from_str("square open2"), '2'));
    reps.push((String::from_str("square open3"), '3'));
    reps.push((String::from_str("square open4"), '4'));
    reps.push((String::from_str("square open5"), '5'));
    reps.push((String::from_str("square open6"), '6'));
    reps.push((String::from_str("square open7"), '7'));
    reps.push((String::from_str("square open8"), '8'));
    assert(reps@[2].0@ =~= open_token(0));
    assert(reps@[3].0@ =~= open_token(1));
    assert(reps@[4].0@ =~= open_token(2));
    assert(reps@[5].0@ =~= open_token(3));
    assert(reps@[6].0@ =~= open_token(4));
    assert(reps@[7].0@ =~= open_token(5));
    assert(reps@[8].0@ =~= open_token(6));
    assert(reps@[9].0@ =~= open_token(7));
    assert(reps@[10].0@ =~= open_token(8));
    reps
}

/// Looks `key` up in a table built by `get_reps`.
pub fn lookup_rep(reps: &Vec<(String, char)>, key: &String) -> (r: Option<char>)
    requires
        reps@.len() == 11,
        forall|k: int| 0 <= k < 11 ==> (#[trigger] reps@[k].0@, reps@[k].1) == rep_entry(k),
    ensures
        r == rep_of(key@),
{
    let mut k: usize = 0;
    while k < reps.len()
        invariant
            k <= 11,
            reps@.len() == 11,
            forall|k: int| 0 <= k < 11 ==> (#[trigger] reps@[k].0@, reps@[k].1) == rep_entry(k),
            forall|j: int| 0 <= j < k ==> rep_entry(j).0 != key@,
        decreases 11 - k,
    {
        if reps[k].0 == *key {
            proof {
                assert(reps@[k as int].0@ == rep_entry(k as int).0);
                lemma_rep_of_entry(k as int);
            }
            return Some(reps[k].1);
        }
        k = k + 1;
    }
    proof {
        if is_rep_key(key@) {
            assert(rep_entry(rep_index(key@)).0 == key@);
        }
    }
    None
}

/// The value of a decimal digit character, if it is one.
pub fn to_digit(c: char) -> (r: Option<u8>)
    ensures
        r matches Some(d) ==> digit_value(c) == Some(d as nat),
        r is None ==> digit_value(c) is None,
{
    match c {
        '0' => Some(0),
        '1' => Some(1),
        '2' => Some(2),
        '3' => Some(3),
        '4' => Some(4),
        '5' => Some(5),
        '6' => Some(6),
        '7' => Some(7),
        '8' => Some(8),
        '9' => Some(9),
        _ => None,
    }
}

/// Whether `pat` occurs anywhere in `s`.
pub fn contains_str(s: &str, pat: &str) -> (r: bool)
    ensures
        r == exists|i: int| occurs_at(s@, pat@, i),
{
    let n = s.unicode_len();
    let m = pat.unicode_len();
    if m > n {
        assert forall|i: int| !occurs_at(s@, pat@, i) by {}
        return false;
    }
    let mut i: usize = 0;
    while i <= n - m
        invariant
            n == s@.len(),
            m == pat@.len(),
            m <= n,
            i <= n - m + 1,
            forall|j: int| 0 <= j < i ==> !occurs_at(s@, pat@, j),
        decreases n - m + 1 - i,
    {
        let mut k: usize = 0;
        let mut same = true;
        while k < m
            invariant
                n == s@.len(),
                m == pat@.len(),
                i + m <= n,
                k <= m,
                same == (forall|t: int| 0 <= t < k ==> s@[i + t] == pat@[t]),
            decreases m - k,
        {
            if same && s.get_char(i + k) != pat.get_char(k) {
                same = false;
            }
            k = k + 1;
        }
        if same {
            assert(s@.subrange(i as int, i + m) =~= pat@);
            assert(occurs_at(s@, pat@, i as int));
            return true;
        }
        assert(!occurs_at(s@, pat@, i as int)) by {
            let t = choose|t: int| 0 <= t < m && s@[i + t] != pat@[t];
            if occurs_at(s@, pat@, i as int) {
                assert(s@.subrange(i as int, i + m)[t] == s@[i + t]);
            }
        }
        i = i + 1;
    }
    false
}

/// Whether the token shows a square whose mine went off.
pub fn is_mine(token: &String) -> (r: bool)
    ensures
        r == is_mine_token(token@),
{
    contains_str(token.as_str(), "bombdeath")
}

} // verus!
