//! Reading food records from text lines. A line holds space-separated
//! ingredient tokens, then a marker, then comma-space-separated allergen
//! tokens in parentheses; lines of any other shape are skipped. Blank tokens
//! are dropped and repeated tokens kept once.
use vstd::prelude::*;

use crate::food::Food;
use crate::food::wf_store;
use crate::names::COMMA;
use crate::names::SPACE;
use crate::names::contains_name;
use crate::names::distinct_names;
use crate::names::name_set;
use crate::names::names_view;

verus! {

/// The opening parenthesis byte.
pub const OPEN: u8 = 40;

/// The closing parenthesis byte.
pub const CLOSE: u8 = 41;

/// A word byte: an ASCII letter, digit or underscore.
pub open spec fn is_word_byte(b: u8) -> bool {
    (97 <= b <= 122) || (65 <= b <= 90) || (48 <= b <= 57) || b == 95
}

/// A whitespace byte.
pub open spec fn is_space_byte(b: u8) -> bool {
    b == 32 || b == 9 || b == 10 || b == 11 || b == 12 || b == 13
}

/// A byte allowed in the ingredient part: word or whitespace.
pub open spec fn is_ing_byte(b: u8) -> bool {
    is_word_byte(b) || is_space_byte(b)
}

/// A byte allowed in the allergen part: word, whitespace or comma.
pub open spec fn is_alg_byte(b: u8) -> bool {
    is_word_byte(b) || is_space_byte(b) || b == COMMA
}

/// The marker that separates the two parts: an opening parenthesis, the word
/// naming the allergen part, and a space.
pub open spec fn contains_marker() -> Seq<u8> {
    seq![40u8, 99u8, 111u8, 110u8, 116u8, 97u8, 105u8, 110u8, 115u8, 32u8]
}

/// The line has the record shape with the marker starting at `i`: a non-empty
/// ingredient part, the marker, a non-empty allergen part, and a final
/// closing parenthesis.
pub open spec fn line_matches_at(l: Seq<u8>, i: int) -> bool {
    &&& 1 <= i
    &&& i + 11 < l.len()
    &&& forall|j: int| 0 <= j < i ==> is_ing_byte(#[trigger] l[j])
    &&& l.subrange(i, i + 10) == contains_marker()
    &&& l[l.len() - 1] == CLOSE
    &&& forall|j: int| i + 10 <= j < l.len() - 1 ==> is_alg_byte(#[trigger] l[j])
}

/// The line has the record shape.
pub open spec fn line_matches(l: Seq<u8>) -> bool {
    exists|i: int| line_matches_at(l, i)
}

/// The marker position is unique: everything before it is a word or space
/// byte, and the marker starts with a parenthesis.
pub proof fn lemma_match_unique(l: Seq<u8>, i1: int, i2: int)
    requires
        line_matches_at(l, i1),
        line_matches_at(l, i2),
    ensures
        i1 == i2,
{
    if i1 < i2 {
        assert(l.subrange(i1, i1 + 10)[0] == 40u8);
        assert(is_ing_byte(l[i1]));
    }
    if i2 < i1 {
        assert(l.subrange(i2, i2 + 10)[0] == 40u8);
        assert(is_ing_byte(l[i2]));
    }
}

/// Index of the first space of `s`, or its length when it has none.
pub open spec fn first_space(s: Seq<u8>) -> int
    decreases s.len(),
{
    if s.len() == 0 {
        0
    } else if s[0] == SPACE {
        0
    } else {
        1 + first_space(s.drop_first())
    }
}

pub proof fn lemma_first_space(s: Seq<u8>)
    ensures
        0 <= first_space(s) <= s.len(),
        first_space(s) < s.len() ==> s[first_space(s)] == SPACE,
        forall|j: int| 0 <= j < first_space(s) ==> s[j] != SPACE,
    decreases s.len(),
{
    if s.len() > 0 && s[0] != SPACE {
        lemma_first_space(s.drop_first());
        assert forall|j: int| 0 <= j < first_space(s) implies s[j] != SPACE by {
            if j > 0 {
                assert(s.drop_first()[j - 1] != SPACE);
            }
        }
    }
}

/// The segments of `s` between its spaces, spaces removed, in order.
pub open spec fn split_sp(s: Seq<u8>) -> Seq<Seq<u8>>
    decreases s.len(),
{
    let j = first_space(s);
    if 0 <= j < s.len() {
        seq![s.take(j)] + split_sp(s.skip(j + 1))
    } else {
        seq![s]
    }
}

/// Index of the first comma-space separator of `s`, or its length.
pub open spec fn first_comma_space(s: Seq<u8>) -> int
    decreases s.len(),
{
    if s.len() == 0 {
        0
    } else if s[0] == COMMA && s.len() >= 2 && s[1] == SPACE {
        0
    } else {
        1 + first_comma_space(s.drop_first())
    }
}

pub proof fn lemma_first_comma_space(s: Seq<u8>)
    ensures
        0 <= first_comma_space(s) <= s.len(),
        first_comma_space(s) < s.len() ==> first_comma_space(s) + 1 < s.len() && s[first_comma_space(
            s,
        )] == COMMA && s[first_comma_space(s) + 1] == SPACE,
        forall|j: int|
            0 <= j < first_comma_space(s) && j + 1 < s.len() ==> !(#[trigger] s[j] == COMMA && s[j
                + 1] == SPACE),
    decreases s.len(),
{
    if s.len() > 0 && !(s[0] == COMMA && s.len() >= 2 && s[1] == SPACE) {
        lemma_first_comma_space(s.drop_first());
        if first_comma_space(s) < s.len() {
            assert(s.drop_first()[first_comma_space(s.drop_first())] == s[first_comma_space(s)]);
        }
        assert forall|j: int|
            0 <= j < first_comma_space(s) && j + 1 < s.len() implies !(#[trigger] s[j] == COMMA
            && s[j + 1] == SPACE) by {
            if j > 0 {
                assert(!(s.drop_first()[j - 1] == COMMA && s.drop_first()[j] == SPACE));
                assert(s.drop_first()[j - 1] == s[j]);
                assert(s.drop_first()[j] == s[j + 1]);
            }
        }
    }
}

/// The segments of `s` between its comma-space separators, in order.
pub open spec fn split_cs(s: Seq<u8>) -> Seq<Seq<u8>>
    decreases s.len(),
{
    let j = first_comma_space(s);
    if 0 <= j && j + 1 < s.len() {
        seq![s.take(j)] + split_cs(s.skip(j + 2))
    } else {
        seq![s]
    }
}

/// The token is empty or all whitespace.
pub open spec fn is_blank(t: Seq<u8>) -> bool {
    forall|j: int| 0 <= j < t.len() ==> is_space_byte(#[trigger] t[j])
}

/// The tokens that are not blank, in order.
pub open spec fn keep_tokens(ts: Seq<Seq<u8>>) -> Seq<Seq<u8>>
    decreases ts.len(),
{
    if ts.len() == 0 {
        ts
    } else {
        let front = keep_tokens(ts.drop_last());
        if is_blank(ts.last()) {
            front
        } else {
            front.push(ts.last())
        }
    }
}

/// Some token of the list is this name.
pub open spec fn tokens_contain(ts: Seq<Seq<u8>>, n: Seq<u8>) -> bool {
    exists|i: int| 0 <= i < ts.len() && ts[i] == n
}

/// The tokens with every repetition dropped, keeping first occurrences.
pub open spec fn dedup_names(ts: Seq<Seq<u8>>) -> Seq<Seq<u8>>
    decreases ts.len(),
{
    if ts.len() == 0 {
        ts
    } else {
        let front = dedup_names(ts.drop_last());
        if tokens_contain(front, ts.last()) {
            front
        } else {
            front.push(ts.last())
        }
    }
}

pub proof fn lemma_dedup_distinct(ts: Seq<Seq<u8>>)
    ensures
        forall|i: int, j: int| 0 <= i < j < dedup_names(ts).len() ==> dedup_names(ts)[i]
            != dedup_names(ts)[j],
        forall|i: int| 0 <= i < dedup_names(ts).len() ==> tokens_contain(
            ts,
            #[trigger] dedup_names(ts)[i],
        ),
        forall|n: Seq<u8>| tokens_contain(ts, n) ==> tokens_contain(dedup_names(ts), n),
    decreases ts.len(),
{
    if ts.len() > 0 {
        lemma_dedup_distinct(ts.drop_last());
        let front = dedup_names(ts.drop_last());
        assert forall|i: int| 0 <= i < dedup_names(ts).len() implies tokens_contain(
            ts,
            #[trigger] dedup_names(ts)[i],
        ) by {
            if i < front.len() {
                let w = choose|w: int|
                    0 <= w < ts.drop_last().len() && ts.drop_last()[w] == front[i];
                assert(ts[w] == front[i]);
            } else {
                assert(ts[ts.len() - 1] == dedup_names(ts)[i]);
            }
        }
        assert forall|n: Seq<u8>| tokens_contain(ts, n) implies tokens_contain(
            dedup_names(ts),
            n,
        ) by {
            let w = choose|w: int| 0 <= w < ts.len() && ts[w] == n;
            if w < ts.len() - 1 {
                assert(ts.drop_last()[w] == n);
                assert(tokens_contain(ts.drop_last(), n));
                assert(tokens_contain(front, n));
                let v = choose|v: int| 0 <= v < front.len() && front[v] == n;
                if tokens_contain(front, ts.last()) {
                    assert(dedup_names(ts)[v] == n);
                } else {
                    assert(dedup_names(ts)[v] == n);
                }
            } else {
                assert(n == ts.last());
                if tokens_contain(front, ts.last()) {
                    assert(tokens_contain(front, n));
                    let v = choose|v: int| 0 <= v < front.len() && front[v] == n;
                    assert(dedup_names(ts) == front);
                    assert(dedup_names(ts)[v] == n);
                } else {
                    assert(dedup_names(ts)[front.len() as int] == n);
                }
            }
        }
    }
}

/// The structured tokens of a matching line: its deduplicated non-blank
/// ingredient tokens and allergen tokens.
pub open spec fn line_tokens(l: Seq<u8>, i: int) -> (Seq<Seq<u8>>, Seq<Seq<u8>>) {
    (
        dedup_names(keep_tokens(split_sp(l.take(i)))),
        dedup_names(keep_tokens(split_cs(l.subrange(i + 10, l.len() - 1)))),
    )
}

/// What one line parses to: token lists when it matches, nothing otherwise.
pub open spec fn spec_parse_line(l: Seq<u8>) -> Option<(Seq<Seq<u8>>, Seq<Seq<u8>>)> {
    if line_matches(l) {
        let i = choose|i: int| line_matches_at(l, i);
        Some(line_tokens(l, i))
    } else {
        None
    }
}

/// The token pairs of the matching lines, in order.
pub open spec fn spec_read_foods(lines: Seq<Seq<u8>>) -> Seq<(Seq<Seq<u8>>, Seq<Seq<u8>>)>
    decreases lines.len(),
{
    if lines.len() == 0 {
        Seq::empty()
    } else {
        let front = spec_read_foods(lines.drop_last());
        match spec_parse_line(lines.last()) {
            Some(t) => front.push(t),
            None => front,
        }
    }
}

/// A copy of the bytes of `s` from `a` to `b`.
fn copy_range(s: &Vec<u8>, a: usize, b: usize) -> (r: Vec<u8>)
    requires
        a <= b <= s@.len(),
    ensures
        r@ == s@.subrange(a as int, b as int),
{
    let mut r: Vec<u8> = Vec::new();
    let mut i: usize = a;
    while i < b
        invariant
            a <= i <= b <= s@.len(),
            r@ =~= s@.subrange(a as int, i as int),
        decreases b - i,
    {
        r.push(s[i]);
        proof {
            assert(s@.subrange(a as int, i + 1) =~= s@.subrange(a as int, i as int).push(
                s@[i as int],
            ));
        }
        i = i + 1;
    }
    r
}

/// Splits on single spaces, keeping every segment.
fn split_spaces(s: &Vec<u8>) -> (r: Vec<Vec<u8>>)
    ensures
        names_view(r@) == split_sp(s@),
{
    let mut r: Vec<Vec<u8>> = Vec::new();
    let mut start: usize = 0;
    proof {
        assert(s@.skip(0) =~= s@);
    }
    loop
        invariant
            start <= s@.len(),
            split_sp(s@) == names_view(r@) + split_sp(s@.skip(start as int)),
        decreases s@.len() - start + 1,
    {
        let ghost suffix = s@.skip(start as int);
        let mut j: usize = start;
        while j < s.len() && s[j] != SPACE
            invariant
                start <= j <= s@.len(),
                forall|k: int| start <= k < j ==> s@[k] != SPACE,
            decreases s@.len() - j,
        {
            j = j + 1;
        }
        proof {
            lemma_first_space(suffix);
            assert(first_space(suffix) == j - start) by {
                if first_space(suffix) < j - start {
                    assert(s@[start + first_space(suffix)] == SPACE);
                }
                if first_space(suffix) > j - start {
                    assert(j < s@.len());
                    assert(suffix[j - start] == SPACE);
                }
            }
        }
        let tok = copy_range(s, start, j);
        let ghost before = r@;
        r.push(tok);
        proof {
            assert(names_view(r@) =~= names_view(before).push(tok@));
            assert(tok@ =~= suffix.take(j - start));
        }
        if j < s.len() {
            proof {
                assert(split_sp(suffix) == seq![suffix.take(j - start)] + split_sp(
                    suffix.skip(j - start + 1),
                ));
                assert(suffix.skip(j - start + 1) =~= s@.skip(j + 1));
                assert(names_view(r@) + split_sp(s@.skip(j + 1)) =~= names_view(before) + split_sp(
                    suffix,
                ));
            }
            start = j + 1;
        } else {
            proof {
                assert(first_space(suffix) == suffix.len());
                assert(split_sp(suffix) == seq![suffix]);
                assert(tok@ =~= suffix);
                assert(names_view(r@) =~= names_view(before).push(suffix));
                assert(names_view(r@) =~= names_view(before) + split_sp(suffix));
                assert(names_view(r@) =~= split_sp(s@));
            }
            return r;
        }
    }
}

/// Splits on comma-space separators, keeping every segment.
fn split_comma_spaces(s: &Vec<u8>) -> (r: Vec<Vec<u8>>)
    ensures
        names_view(r@) == split_cs(s@),
{
    let mut r: Vec<Vec<u8>> = Vec::new();
    let mut start: usize = 0;
    proof {
        assert(s@.skip(0) =~= s@);
    }
    loop
        invariant
            start <= s@.len(),
            split_cs(s@) == names_view(r@) + split_cs(s@.skip(start as int)),
        decreases s@.len() - start + 1,
    {
        let ghost suffix = s@.skip(start as int);
        let mut j: usize = start;
        while j < s.len() && !(s[j] == COMMA && j + 1 < s.len() && s[j + 1] == SPACE)
            invariant
                start <= j <= s@.len(),
                forall|k: int|
                    start <= k < j && k + 1 < s@.len() ==> !(#[trigger] s@[k] == COMMA && s@[k + 1]
                        == SPACE),
            decreases s@.len() - j,
        {
            j = j + 1;
        }
        proof {
            lemma_first_comma_space(suffix);
            assert(first_comma_space(suffix) == j - start || (first_comma_space(suffix)
                >= suffix.len() && j >= s@.len())) by {
                if first_comma_space(suffix) < j - start {
                    assert(suffix[first_comma_space(suffix)] == COMMA && suffix[first_comma_space(
                        suffix,
                    ) + 1] == SPACE);
                    assert(s@[start + first_comma_space(suffix)] == COMMA);
                    assert(s@[start + first_comma_space(suffix) + 1] == SPACE);
                }
                if j < s@.len() && first_comma_space(suffix) > j - start {
                    assert(suffix[j - start] == COMMA && j - start + 1 < suffix.len()
                        && suffix[j - start + 1] == SPACE);
                }
            }
        }
        let tok = copy_range(s, start, j);
        let ghost before = r@;
        r.push(tok);
        proof {
            assert(names_view(r@) =~= names_view(before).push(tok@));
            assert(tok@ =~= suffix.take(j - start));
        }
        if j < s.len() {
            proof {
                assert(first_comma_space(suffix) == j - start);
                assert(first_comma_space(suffix) + 1 < suffix.len());
                assert(split_cs(suffix) == seq![suffix.take(j - start)] + split_cs(
                    suffix.skip(j - start + 2),
                ));
                assert(suffix.skip(j - start + 2) =~= s@.skip(j + 2));
                assert(names_view(r@) + split_cs(s@.skip(j + 2)) =~= names_view(before) + split_cs(
                    suffix,
                ));
            }
            start = j + 2;
            proof {
                assert(start <= s@.len());
            }
        } else {
            proof {
                assert(!(first_comma_space(suffix) + 1 < suffix.len())) by {
                    if first_comma_space(suffix) + 1 < suffix.len() {
                        assert(suffix[first_comma_space(suffix)] == COMMA);
                        assert(suffix[first_comma_space(suffix) + 1] == SPACE);
                    }
                }
                assert(split_cs(suffix) == seq![suffix]);
                assert(tok@ =~= suffix);
                assert(names_view(r@) =~= names_view(before) + split_cs(suffix));
                assert(names_view(r@) =~= split_cs(s@));
            }
            return r;
        }
    }
}

/// Whether every byte of the token is whitespace.
fn token_is_blank(t: &Vec<u8>) -> (r: bool)
    ensures
        r == is_blank(t@),
{
    let mut j: usize = 0;
    while j < t.len()
        invariant
            j <= t@.len(),
            forall|k: int| 0 <= k < j ==> is_space_byte(#[trigger] t@[k]),
        decreases t.len() - j,
    {
        let b = t[j];
        if !(b == 32 || b == 9 || b == 10 || b == 11 || b == 12 || b == 13) {
            return false;
        }
        j = j + 1;
    }
    true
}

/// Drops blank tokens, keeping order.
fn filter_blank(ts: Vec<Vec<u8>>) -> (r: Vec<Vec<u8>>)
    ensures
        names_view(r@) == keep_tokens(names_view(ts@)),
{
    let mut r: Vec<Vec<u8>> = Vec::new();
    let mut i: usize = 0;
    proof {
        assert(names_view(ts@).take(0) =~= Seq::<Seq<u8>>::empty());
        assert(names_view(r@) =~= keep_tokens(names_view(ts@).take(0)));
    }
    while i < ts.len()
        invariant
            i <= ts@.len(),
            names_view(r@) == keep_tokens(names_view(ts@).take(i as int)),
        decreases ts.len() - i,
    {
        let ghost tsv = names_view(ts@);
        let ghost before = r@;
        let blank = token_is_blank(&ts[i]);
        if !blank {
            let tok = crate::names::copy_name(&ts[i]);
            r.push(tok);
        }
        proof {
            assert(tsv.take(i + 1).drop_last() =~= tsv.take(i as int));
            assert(tsv.take(i + 1).last() == tsv[i as int]);
            if !blank {
                assert(names_view(r@) =~= names_view(before).push(ts@[i as int]@));
            }
        }
        i = i + 1;
    }
    proof {
        assert(names_view(ts@).take(ts@.len() as int) =~= names_view(ts@));
    }
    r
}

/// Keeps the first occurrence of each token.
fn dedup_tokens(ts: Vec<Vec<u8>>) -> (r: Vec<Vec<u8>>)
    ensures
        names_view(r@) == dedup_names(names_view(ts@)),
        distinct_names(r@),
{
    let mut r: Vec<Vec<u8>> = Vec::new();
    let mut i: usize = 0;
    proof {
        assert(names_view(ts@).take(0) =~= Seq::<Seq<u8>>::empty());
        assert(names_view(r@) =~= dedup_names(names_view(ts@).take(0)));
    }
    while i < ts.len()
        invariant
            i <= ts@.len(),
            names_view(r@) == dedup_names(names_view(ts@).take(i as int)),
            distinct_names(r@),
        decreases ts.len() - i,
    {
        let ghost tsv = names_view(ts@);
        let ghost before = r@;
        let present = contains_name(&r, &ts[i]);
        if !present {
            let tok = crate::names::copy_name(&ts[i]);
            r.push(tok);
        }
        proof {
            assert(tsv.take(i + 1).drop_last() =~= tsv.take(i as int));
            assert(tsv.take(i + 1).last() == tsv[i as int]);
            assert(tokens_contain(names_view(before), ts@[i as int]@) <==> name_set(
                before,
            ).contains(ts@[i as int]@)) by {
                if tokens_contain(names_view(before), ts@[i as int]@) {
                    let w = choose|w: int|
                        0 <= w < names_view(before).len() && names_view(before)[w] == ts@[i as int]@;
                    assert(before[w]@ == ts@[i as int]@);
                }
                if name_set(before).contains(ts@[i as int]@) {
                    let w = choose|w: int| 0 <= w < before.len() && before[w]@ == ts@[i as int]@;
                    assert(names_view(before)[w] == ts@[i as int]@);
                }
            }
            if !present {
                assert(names_view(r@) =~= names_view(before).push(ts@[i as int]@));
                assert forall|m: int| 0 <= m < before.len() implies before[m]@
                    != ts@[i as int]@ by {
                    assert(names_view(before)[m] == before[m]@);
                }
            }
        }
        i = i + 1;
    }
    proof {
        assert(names_view(ts@).take(ts@.len() as int) =~= names_view(ts@));
    }
    r
}

/// Parses one line, or reports that it does not have the record shape.
#[verifier::loop_isolation(false)]
pub fn parse_line(line: &Vec<u8>) -> (r: Option<(Vec<Vec<u8>>, Vec<Vec<u8>>)>)
    ensures
        r is Some <==> line_matches(line@),
        match r {
            Some(t) => {
                &&& spec_parse_line(line@) == Some((names_view(t.0@), names_view(t.1@)))
                &&& distinct_names(t.0@)
                &&& distinct_names(t.1@)
            },
            None => true,
        },
{
    let n = line.len();
    // find the first opening parenthesis
    let mut i: usize = 0;
    while i < n && line[i] != OPEN
        invariant
            i <= n,
            n == line@.len(),
            forall|k: int| 0 <= k < i ==> line@[k] != OPEN,
        decreases n - i,
    {
        i = i + 1;
    }
    proof {
        assert forall|i2: int| line_matches_at(line@, i2) implies i2 == i as int by {
            assert(line@.subrange(i2, i2 + 10)[0] == 40u8);
            assert(line@[i2] == OPEN);
            if i2 < i {
            } else if i2 > i {
                assert(is_ing_byte(line@[i as int]));
            }
        }
    }
    if i == n {
        proof {
            assert(!line_matches(line@)) by {
                if line_matches(line@) {
                    let w = choose|w: int| line_matches_at(line@, w);
                    assert(line@[w] == OPEN) by {
                        assert(line@.subrange(w, w + 10)[0] == 40u8);
                    }
                }
            }
        }
        return None;
    }
    // the marker and both parts must fit around position i
    if i < 1 || n < 12 || i >= n - 11 {
        proof {
            if line_matches(line@) {
                let w = choose|w: int| line_matches_at(line@, w);
                assert(w == i as int);
            }
        }
        return None;
    }
    // the ingredient part holds word and space bytes only
    let mut j: usize = 0;
    while j < i
        invariant
            j <= i,
            i < n == line@.len(),
            forall|k: int| 0 <= k < j ==> is_ing_byte(#[trigger] line@[k]),
        decreases i - j,
    {
        let b = line[j];
        let word = (97 <= b && b <= 122) || (65 <= b && b <= 90) || (48 <= b && b <= 57) || b
            == 95;
        let space = b == 32 || b == 9 || b == 10 || b == 11 || b == 12 || b == 13;
        if !(word || space) {
            proof {
                if line_matches(line@) {
                    let w = choose|w: int| line_matches_at(line@, w);
                    assert(w == i as int);
                    assert(is_ing_byte(line@[j as int]));
                }
            }
            return None;
        }
        j = j + 1;
    }
    // the marker itself
    let marker: [u8; 10] = [40, 99, 111, 110, 116, 97, 105, 110, 115, 32];
    let mut m: usize = 0;
    while m < 10
        invariant
            m <= 10,
            i + 11 < n == line@.len(),
            marker@ == contains_marker(),
            forall|k: int| 0 <= k < m ==> line@[i + k] == contains_marker()[k],
        decreases 10 - m,
    {
        if line[i + m] != marker[m] {
            proof {
                if line_matches(line@) {
                    let w = choose|w: int| line_matches_at(line@, w);
                    assert(w == i as int);
                    assert(line@.subrange(i as int, i + 10)[m as int] == line@[i + m]);
                }
            }
            return None;
        }
        m = m + 1;
    }
    proof {
        assert(line@.subrange(i as int, i + 10) =~= contains_marker());
    }
    // the final closing parenthesis
    if line[n - 1] != CLOSE {
        proof {
            if line_matches(line@) {
                let w = choose|w: int| line_matches_at(line@, w);
                assert(w == i as int);
            }
        }
        return None;
    }
    // the allergen part holds word, space and comma bytes only
    let mut j2: usize = i + 10;
    while j2 < n - 1
        invariant
            i + 10 <= j2 <= n - 1,
            i + 11 < n == line@.len(),
            forall|k: int| i + 10 <= k < j2 ==> is_alg_byte(#[trigger] line@[k]),
        decreases n - j2,
    {
        let b = line[j2];
        let word = (97 <= b && b <= 122) || (65 <= b && b <= 90) || (48 <= b && b <= 57) || b
            == 95;
        let space = b == 32 || b == 9 || b == 10 || b == 11 || b == 12 || b == 13;
        if !(word || space || b == COMMA) {
            proof {
                if line_matches(line@) {
                    let w = choose|w: int| line_matches_at(line@, w);
                    assert(w == i as int);
                    assert(is_alg_byte(line@[j2 as int]));
                }
            }
            return None;
        }
        j2 = j2 + 1;
    }
    proof {
        assert(line_matches_at(line@, i as int));
    }
    let ing_region = copy_range(line, 0, i);
    let alg_region = copy_range(line, i + 10, n - 1);
    let ings = dedup_tokens(filter_blank(split_spaces(&ing_region)));
    let algs = dedup_tokens(filter_blank(split_comma_spaces(&alg_region)));
    proof {
        let w = choose|w: int| line_matches_at(line@, w);
        lemma_match_unique(line@, w, i as int);
        assert(ing_region@ =~= line@.take(i as int));
        assert(alg_region@ =~= line@.subrange(i + 10, line@.len() - 1));
        assert(names_view(ings@) == line_tokens(line@, i as int).0);
        assert(names_view(algs@) == line_tokens(line@, i as int).1);
    }
    Some((ings, algs))
}

/// Parses every line in order, skipping those without the record shape, and
/// numbers the records from zero.
pub fn read_foods(lines: &Vec<Vec<u8>>) -> (foods: Vec<Food>)
    requires
        lines@.len() <= u32::MAX,
    ensures
        foods@.len() == spec_read_foods(names_view(lines@)).len(),
        forall|k: int|
            #![trigger foods@[k]]
            0 <= k < foods@.len() ==> {
                &&& foods@[k].id == k
                &&& names_view(foods@[k].ingredients@) == spec_read_foods(names_view(lines@))[k].0
                &&& names_view(foods@[k].allergens@) == spec_read_foods(names_view(lines@))[k].1
            },
        wf_store(foods@),
{
    let mut foods: Vec<Food> = Vec::new();
    let mut id: u32 = 0;
    let mut i: usize = 0;
    proof {
        assert(names_view(lines@).take(0) =~= Seq::<Seq<u8>>::empty());
    }
    while i < lines.len()
        invariant
            i <= lines@.len(),
            lines@.len() <= u32::MAX,
            id == foods@.len(),
            foods@.len() == spec_read_foods(names_view(lines@).take(i as int)).len(),
            foods@.len() <= i,
            forall|k: int|
                #![trigger foods@[k]]
                0 <= k < foods@.len() ==> {
                    &&& foods@[k].id == k
                    &&& names_view(foods@[k].ingredients@) == spec_read_foods(
                        names_view(lines@).take(i as int),
                    )[k].0
                    &&& names_view(foods@[k].allergens@) == spec_read_foods(
                        names_view(lines@).take(i as int),
                    )[k].1
                },
            wf_store(foods@),
        decreases lines.len() - i,
    {
        let ghost lv = names_view(lines@);
        let ghost before = spec_read_foods(lv.take(i as int));
        proof {
            assert(lv.take(i + 1).drop_last() =~= lv.take(i as int));
            assert(lv.take(i + 1).last() == lv[i as int]);
        }
        match parse_line(&lines[i]) {
            Some(t) => {
                let (ings, algs) = t;
                let f = Food::new(id, ings, algs);
                foods.push(f);
                id = id + 1;
                proof {
                    assert(spec_read_foods(lv.take(i + 1)) == before.push(
                        (names_view(foods@.last().ingredients@), names_view(
                            foods@.last().allergens@,
                        )),
                    ));
                }
            },
            None => {
                proof {
                    assert(spec_read_foods(lv.take(i + 1)) == before);
                }
            },
        }
        i = i + 1;
    }
    proof {
        assert(names_view(lines@).take(lines@.len() as int) =~= names_view(lines@));
    }
    foods
}

} // verus!
