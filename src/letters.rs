//! Letter frequencies over a list of strings.
use vstd::prelude::*;
use vstd::string::StrSliceExecFns;

verus! {

/// Whether `c` has the Unicode `Alphabetic` property.
pub uninterp spec fn alphabetic(c: char) -> bool;

/// Relies on `char::is_alphabetic`: the Unicode `Alphabetic` property of `c`,
/// a function of `c` alone.
#[verifier::external_body]
fn is_alphabetic(c: char) -> (r: bool)
    ensures
        r == alphabetic(c),
{
    c.is_alphabetic()
}

/// The code of `c` after ASCII lower-casing: `A` to `Z` move up by 32,
/// everything else stays.
pub open spec fn lower_code(c: char) -> u32 {
    if 'A' <= c && c <= 'Z' {
        (c as u32 + 32) as u32
    } else {
        c as u32
    }
}

/// Relies on `char::to_ascii_lowercase`: `A` to `Z` map to `a` to `z`, every
/// other character to itself.
#[verifier::external_body]
fn ascii_lower(c: char) -> (r: char)
    ensures
        r as u32 == lower_code(c),
{
    c.to_ascii_lowercase()
}

/// The lower-cased codes of the alphabetic characters of `s`, in order.
pub open spec fn letter_codes(s: Seq<char>) -> Seq<u32>
    decreases s.len(),
{
    if s.len() == 0 {
        Seq::empty()
    } else if alphabetic(s.last()) {
        letter_codes(s.drop_last()).push(lower_code(s.last()))
    } else {
        letter_codes(s.drop_last())
    }
}

/// The lower-cased codes of the alphabetic characters of all of `strs`, in
/// order.
pub open spec fn all_letter_codes(strs: Seq<&str>) -> Seq<u32>
    decreases strs.len(),
{
    if strs.len() == 0 {
        Seq::empty()
    } else {
        all_letter_codes(strs.drop_last()) + letter_codes(strs.last()@)
    }
}

/// The number of characters in all of `strs`.
pub open spec fn total_chars(strs: Seq<&str>) -> nat
    decreases strs.len(),
{
    if strs.len() == 0 {
        0
    } else {
        total_chars(strs.drop_last()) + strs.last()@.len()
    }
}

/// How often `x` occurs in `s`.
pub open spec fn occurrences(s: Seq<u32>, x: u32) -> nat
    decreases s.len(),
{
    if s.len() == 0 {
        0
    } else {
        occurrences(s.drop_last(), x) + if s.last() == x { 1nat } else { 0nat }
    }
}

/// `r` holds each letter code of `codes` once, with the number of times it
/// occurs.
pub open spec fn tally_of(r: Seq<(char, usize)>, codes: Seq<u32>) -> bool {
    &&& forall|i: int| 0 <= i < r.len() ==> #[trigger] r[i].1 as nat == occurrences(codes, r[i].0 as u32)
        && r[i].1 > 0
    &&& forall|x: u32| #[trigger] occurrences(codes, x) > 0 ==> exists|i: int| 0 <= i < r.len() && r[i].0 as u32 == x
    &&& forall|i: int, j: int| 0 <= i < j < r.len() ==> r[i].0 as u32 != r[j].0 as u32
}

proof fn lemma_occurrences_bound(s: Seq<u32>, x: u32)
    ensures
        occurrences(s, x) <= s.len(),
    decreases s.len(),
{
    if s.len() > 0 {
        lemma_occurrences_bound(s.drop_last(), x);
    }
}

proof fn lemma_letter_codes_len(s: Seq<char>)
    ensures
        letter_codes(s).len() <= s.len(),
    decreases s.len(),
{
    if s.len() > 0 {
        lemma_letter_codes_len(s.drop_last());
    }
}

proof fn lemma_all_letter_codes_len(strs: Seq<&str>)
    ensures
        all_letter_codes(strs).len() <= total_chars(strs),
    decreases strs.len(),
{
    if strs.len() > 0 {
        lemma_all_letter_codes_len(strs.drop_last());
        lemma_letter_codes_len(strs.last()@);
    }
}

proof fn lemma_total_chars_prefix(strs: Seq<&str>, i: int)
    requires
        0 <= i <= strs.len(),
    ensures
        total_chars(strs.take(i)) <= total_chars(strs),
    decreases strs.len() - i,
{
    if i < strs.len() {
        lemma_total_chars_prefix(strs, i + 1);
        assert(strs.take(i + 1).drop_last() == strs.take(i));
    } else {
        assert(strs.take(i) == strs);
    }
}

/// Adds one letter code to the tally.
fn count_one(r: &mut Vec<(char, usize)>, c: char, Ghost(seen): Ghost<Seq<u32>>)
    requires
        tally_of(old(r)@, seen),
        seen.len() < usize::MAX,
    ensures
        tally_of(final(r)@, seen.push(c as u32)),
{
    let ghost next = seen.push(c as u32);
    assert(next.drop_last() == seen);
    let mut k: usize = 0;
    while k < r.len()
        invariant
            k <= r@.len(),
            r@ == old(r)@,
            forall|i: int| 0 <= i < k ==> r@[i].0 as u32 != c as u32,
            tally_of(old(r)@, seen),
            seen.len() < usize::MAX,
            next == seen.push(c as u32),
            next.drop_last() == seen,
        decreases r@.len() - k,
    {
        if r[k].0 as u32 == c as u32 {
            proof {
                lemma_occurrences_bound(seen, c as u32);
                assert(r@[k as int].1 as nat == occurrences(seen, r@[k as int].0 as u32));
            }
            let n = r[k].1;
            r.set(k, (c, n + 1));
            assert forall|x: u32| #[trigger] occurrences(next, x) > 0 implies exists|i: int|
                0 <= i < r@.len() && r@[i].0 as u32 == x by {
                assert(occurrences(next, x) == occurrences(seen, x) + if c as u32 == x { 1nat } else { 0nat });
                if x != c as u32 {
                    let i = choose|i: int| 0 <= i < old(r)@.len() && old(r)@[i].0 as u32 == x;
                    assert(r@[i].0 as u32 == x);
                } else {
                    assert(r@[k as int].0 as u32 == x);
                }
            }
            return;
        }
        k = k + 1;
    }
    r.push((c, 1));
    assert forall|x: u32| #[trigger] occurrences(next, x) > 0 implies exists|i: int|
        0 <= i < r@.len() && r@[i].0 as u32 == x by {
        assert(occurrences(next, x) == occurrences(seen, x) + if c as u32 == x { 1nat } else { 0nat });
        if x != c as u32 {
            let i = choose|i: int| 0 <= i < old(r)@.len() && old(r)@[i].0 as u32 == x;
            assert(r@[i].0 as u32 == x);
        } else {
            assert(r@[r@.len() - 1].0 as u32 == x);
        }
    }
    assert forall|i: int| 0 <= i < r@.len() implies #[trigger] r@[i].1 as nat == occurrences(next, r@[i].0 as u32)
        && r@[i].1 > 0 by {
        if i < r@.len() - 1 {
            assert(r@[i] == old(r)@[i]);
            assert(old(r)@[i].0 as u32 != c as u32);
            assert(occurrences(next, r@[i].0 as u32) == occurrences(seen, r@[i].0 as u32));
        } else {
            assert(occurrences(next, c as u32) == occurrences(seen, c as u32) + 1);
            if occurrences(seen, c as u32) > 0 {
                let j = choose|j: int| 0 <= j < old(r)@.len() && old(r)@[j].0 as u32 == c as u32;
                assert(old(r)@[j].0 as u32 != c as u32);
            }
        }
    }
}

/// The character codes of `v`, in order.
pub open spec fn codes_of(v: Seq<char>) -> Seq<u32> {
    v.map_values(|c: char| c as u32)
}

/// Counts the characters of `letters`: each one that occurs is listed once,
/// with the number of times it occurs.
pub fn tally(letters: &Vec<char>) -> (r: Vec<(char, usize)>)
    requires
        letters@.len() < usize::MAX,
    ensures
        tally_of(r@, codes_of(letters@)),
{
    let mut r: Vec<(char, usize)> = Vec::new();
    for k in 0..letters.len()
        invariant
            letters@.len() < usize::MAX,
            tally_of(r@, codes_of(letters@.take(k as int))),
    {
        let c = letters[k];
        assert(codes_of(letters@.take(k + 1)) =~= codes_of(letters@.take(k as int)).push(c as u32));
        count_one(&mut r, c, Ghost(codes_of(letters@.take(k as int))));
    }
    assert(letters@.take(letters@.len() as int) == letters@);
    r
}

/// How often each letter occurs in `input`, letters being the alphabetic
/// characters, ASCII upper case counted as lower case. Each letter that
/// occurs is listed once. The counts do not depend on `worker_count`, the
/// number of pieces the input may be split into for counting.
pub fn frequency(input: &[&str], worker_count: usize) -> (r: Vec<(char, usize)>)
    requires
        worker_count > 0,
        total_chars(input@) < usize::MAX,
    ensures
        tally_of(r@, all_letter_codes(input@)),
{
    let mut letters: Vec<char> = Vec::new();
    proof {
        lemma_all_letter_codes_len(input@);
    }
    for i in 0..input.len()
        invariant
            codes_of(letters@) == all_letter_codes(input@.take(i as int)),
            total_chars(input@) < usize::MAX,
    {
        let s: &str = input[i];
        let n = s.unicode_len();
        let ghost before = codes_of(letters@);
        proof {
            lemma_total_chars_prefix(input@, i + 1);
            assert(input@.take(i + 1).drop_last() == input@.take(i as int));
            lemma_all_letter_codes_len(input@.take(i + 1));
        }
        for k in 0..n
            invariant
                n == s@.len(),
                codes_of(letters@) == before + letter_codes(s@.take(k as int)),
                before + letter_codes(s@) == all_letter_codes(input@.take(i + 1)),
                all_letter_codes(input@.take(i + 1)).len() <= total_chars(input@),
                total_chars(input@) < usize::MAX,
        {
            let c = s.get_char(k);
            assert(s@.take(k + 1).drop_last() == s@.take(k as int));
            proof {
                lemma_letter_codes_len(s@.take(k + 1));
                lemma_prefix_codes(s@, k + 1);
            }
            if is_alphabetic(c) {
                let l = ascii_lower(c);
                let ghost old_letters = letters@;
                letters.push(l);
                assert(codes_of(letters@) =~= codes_of(old_letters).push(l as u32));
            }
        }
        assert(s@.take(n as int) == s@);
    }
    assert(input@.take(input@.len() as int) == input@);
    assert(letters@.len() == codes_of(letters@).len());
    tally(&letters)
}

proof fn lemma_prefix_codes(s: Seq<char>, k: int)
    requires
        0 <= k <= s.len(),
    ensures
        letter_codes(s.take(k)).len() <= letter_codes(s).len(),
    decreases s.len(),
{
    if k < s.len() {
        lemma_prefix_codes(s.drop_last(), k);
        assert(s.drop_last().take(k) == s.take(k));
    } else {
        assert(s.take(k) == s);
    }
}

} // verus!
