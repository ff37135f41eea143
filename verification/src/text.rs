//! Character-level helpers shared by the configuration readers.

use vstd::prelude::*;

verus! {

/// The character that a byte denotes when it is read on its own, as `b as char` reads it
/// (Latin-1).
pub open spec fn latin1(b: u8) -> char {
    b as char
}

/// The characters that bytes denote when each is read on its own.
pub open spec fn latin1_seq(bytes: Seq<u8>) -> Seq<char> {
    bytes.map_values(|b: u8| latin1(b))
}

/// Reads a byte as a character, the way the readers of service files do.
pub fn byte_char(b: u8) -> (c: char)
    ensures
        c == latin1(b),
{
    b as char
}

/// Appends a character to a string (`String::push`).
#[verifier::external_body]
pub(crate) fn push_char(s: &mut String, c: char)
    ensures
        final(s)@ == old(s)@.push(c),
{
    s.push(c)
}

/// Compares two string slices (`<str as PartialEq>::eq`).
#[verifier::external_body]
pub(crate) fn str_eq(a: &str, b: &str) -> (r: bool)
    ensures
        r == (a@ == b@),
{
    a == b
}

/// Builds a string from the characters `cs[lo..hi]`.
pub fn string_from_chars(cs: &[char], lo: usize, hi: usize) -> (s: String)
    requires
        lo <= hi <= cs@.len(),
    ensures
        s@ == cs@.subrange(lo as int, hi as int),
{
    let mut s = String::new();
    let mut i: usize = lo;
    while i < hi
        invariant
            lo <= i <= hi <= cs@.len(),
            s@ == cs@.subrange(lo as int, i as int),
        decreases hi - i,
    {
        push_char(&mut s, cs[i]);
        i = i + 1;
        assert(cs@.subrange(lo as int, i as int) =~= cs@.subrange(lo as int, i - 1).push(
            cs@[i - 1],
        ));
    }
    s
}

/// Copies a vector of strings, element by element.
pub fn clone_strings(v: &Vec<String>) -> (r: Vec<String>)
    ensures
        r@ == v@,
{
    let mut r: Vec<String> = Vec::new();
    let mut i: usize = 0;
    while i < v.len()
        invariant
            i <= v.len(),
            r@ == v@.subrange(0, i as int),
        decreases v.len() - i,
    {
        r.push(v[i].clone());
        i = i + 1;
        assert(r@ =~= v@.subrange(0, i as int));
    }
    assert(v@.subrange(0, v@.len() as int) =~= v@);
    r
}

/// The views of a sequence of strings.
pub open spec fn strings_view(v: Seq<String>) -> Seq<Seq<char>> {
    v.map_values(|s: String| s@)
}

/// The position of the first occurrence of `c` in `s`, if there is one.
pub open spec fn first_index<A>(s: Seq<A>, c: A) -> Option<int>
    decreases s.len(),
{
    if s.len() == 0 {
        None
    } else if s[0] == c {
        Some(0)
    } else {
        match first_index(s.drop_first(), c) {
            Some(j) => Some(j + 1),
            None => None,
        }
    }
}

/// `first_index` finds the first occurrence, and finds nothing only where there is none.
pub proof fn lemma_first_index<A>(s: Seq<A>, c: A)
    ensures
        first_index(s, c) matches Some(j) ==> 0 <= j < s.len() && s[j] == c && forall|k: int|
            0 <= k < j ==> s[k] != c,
        first_index(s, c) is None ==> forall|k: int| 0 <= k < s.len() ==> s[k] != c,
    decreases s.len(),
{
    if s.len() > 0 && s[0] != c {
        lemma_first_index(s.drop_first(), c);
        assert forall|k: int| 1 <= k < s.len() implies s[k] == s.drop_first()[k - 1] by {}
    }
}

/// Finds the first occurrence of `c` in `s`.
pub fn find_char(s: &[char], c: char) -> (r: Option<usize>)
    ensures
        r matches Some(j) ==> first_index(s@, c) == Some(j as int),
        r is None ==> first_index(s@, c) is None,
{
    let mut i: usize = 0;
    while i < s.len()
        invariant
            i <= s.len(),
            forall|k: int| 0 <= k < i ==> s@[k] != c,
        decreases s.len() - i,
    {
        if s[i] == c {
            proof {
                lemma_first_index(s@, c);
            }
            return Some(i);
        }
        i = i + 1;
    }
    proof {
        lemma_first_index(s@, c);
    }
    None
}

/// The pieces of `s` between the occurrences of `sep`, as `str::split` with a character
/// yields them: there is always at least one piece, and neighbouring separators give an
/// empty piece.
pub open spec fn split_on<A>(s: Seq<A>, sep: A) -> Seq<Seq<A>>
    decreases s.len(),
{
    if s.len() == 0 {
        seq![Seq::<A>::empty()]
    } else {
        let rest = split_on(s.drop_last(), sep);
        if s.last() == sep {
            rest.push(Seq::<A>::empty())
        } else {
            rest.update(rest.len() - 1, rest.last().push(s.last()))
        }
    }
}

/// The pieces joined back together, with `sep` between neighbours.
pub open spec fn join_with<A>(pieces: Seq<Seq<A>>, sep: A) -> Seq<A>
    decreases pieces.len(),
{
    if pieces.len() == 0 {
        Seq::empty()
    } else if pieces.len() == 1 {
        pieces[0]
    } else {
        join_with(pieces.drop_last(), sep).push(sep) + pieces.last()
    }
}

/// Splitting never yields an empty list, no piece holds the separator, and joining the
/// pieces with the separator gives back the text that was split.
pub proof fn lemma_split_join<A>(s: Seq<A>, sep: A)
    ensures
        split_on(s, sep).len() >= 1,
        forall|i: int, j: int|
            0 <= i < split_on(s, sep).len() && 0 <= j < split_on(s, sep)[i].len() ==> split_on(
                s,
                sep,
            )[i][j] != sep,
        join_with(split_on(s, sep), sep) == s,
    decreases s.len(),
{
    if s.len() > 0 {
        lemma_split_join(s.drop_last(), sep);
        let rest = split_on(s.drop_last(), sep);
        if s.last() == sep {
            assert(split_on(s, sep).drop_last() =~= rest);
            assert(join_with(split_on(s, sep), sep) =~= s);
        } else {
            let r2 = split_on(s, sep);
            if rest.len() == 1 {
                assert(r2[0] =~= s);
            } else {
                assert(r2.drop_last() =~= rest.drop_last());
                assert(join_with(rest, sep) == join_with(rest.drop_last(), sep).push(sep)
                    + rest.last());
                let pre = join_with(rest.drop_last(), sep).push(sep);
                assert(r2.last() == rest.last().push(s.last()));
                assert(join_with(r2, sep) == pre + rest.last().push(s.last()));
                assert(pre + rest.last().push(s.last()) =~= (pre + rest.last()).push(s.last()));
                assert(s =~= s.drop_last().push(s.last()));
            }
        }
    }
}

/// Splits a sequence of characters at every `sep` into strings.
pub fn split_chars(s: &[char], sep: char) -> (r: Vec<String>)
    ensures
        strings_view(r@) == split_on(s@, sep),
{
    let mut r: Vec<String> = Vec::new();
    let mut cur = String::new();
    let mut i: usize = 0;
    while i < s.len()
        invariant
            i <= s.len(),
            strings_view(r@).push(cur@) == split_on(s@.subrange(0, i as int), sep),
        decreases s.len() - i,
    {
        let ghost prev = s@.subrange(0, i as int);
        let ghost next = s@.subrange(0, i + 1);
        assert(next.drop_last() =~= prev);
        if s[i] == sep {
            let ghost old_r = r@;
            let piece = cur;
            r.push(piece);
            cur = String::new();
            assert(strings_view(r@) =~= strings_view(old_r).push(piece@));
        } else {
            let ghost before = strings_view(r@);
            push_char(&mut cur, s[i]);
            assert(strings_view(r@).push(cur@) =~= before.push(cur@));
        }
        i = i + 1;
    }
    assert(s@.subrange(0, s@.len() as int) =~= s@);
    r.push(cur);
    r
}

}
