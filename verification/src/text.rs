//! Character-level text utilities: conversion of strings to character
//! vectors, literal substring search, decimal formatting of integers, and
//! joining with a separator.

use vstd::prelude::*;

verus! {

/// `needle` occurs in `hay` as a contiguous run of characters.
pub open spec fn is_substring(needle: Seq<char>, hay: Seq<char>) -> bool {
    exists|i: int|
        0 <= i && i + needle.len() <= hay.len() && #[trigger] hay.subrange(i, i + needle.len())
            == needle
}

/// The characters of `s`, in order.
pub fn to_chars(s: &str) -> (r: Vec<char>)
    ensures
        r@ == s@,
{
    let n = s.unicode_len();
    let mut r: Vec<char> = Vec::new();
    let mut i: usize = 0;
    while i < n
        invariant
            n == s@.len(),
            i <= n,
            r@ == s@.take(i as int),
        decreases n - i,
    {
        r.push(s.get_char(i));
        proof {
            assert(r@ =~= s@.take(i + 1));
        }
        i = i + 1;
    }
    proof {
        assert(r@ =~= s@);
    }
    r
}

fn chars_match_at(hay: &Vec<char>, needle: &Vec<char>, at: usize) -> (r: bool)
    requires
        at + needle@.len() <= hay@.len(),
    ensures
        r == (hay@.subrange(at as int, at + needle@.len()) == needle@),
{
    let n = needle.len();
    let hay_len = hay.len();
    let mut j: usize = 0;
    while j < n
        invariant
            n == needle@.len(),
            hay_len == hay@.len(),
            at + n <= hay_len,
            j <= n,
            forall|k: int| 0 <= k < j ==> hay@[at + k] == needle@[k],
        decreases n - j,
    {
        if hay[at + j] != needle[j] {
            proof {
                assert(hay@.subrange(at as int, at + needle@.len())[j as int] != needle@[j as int]);
            }
            return false;
        }
        j = j + 1;
    }
    proof {
        assert(hay@.subrange(at as int, at + needle@.len()) =~= needle@);
    }
    true
}

/// Whether `needle` occurs in `hay`, working over character vectors.
pub fn contains_chars(hay: &Vec<char>, needle: &Vec<char>) -> (r: bool)
    ensures
        r == is_substring(needle@, hay@),
{
    if needle.len() > hay.len() {
        return false;
    }
    let last = hay.len() - needle.len();
    let mut i: usize = 0;
    loop
        invariant
            needle@.len() <= hay@.len(),
            last == hay@.len() - needle@.len(),
            i <= last,
            forall|p: int|
                0 <= p < i ==> #[trigger] hay@.subrange(p, p + needle@.len()) != needle@,
        ensures
            forall|p: int|
                0 <= p <= last ==> #[trigger] hay@.subrange(p, p + needle@.len()) != needle@,
        decreases last - i,
    {
        if chars_match_at(hay, needle, i) {
            return true;
        }
        if i == last {
            break ;
        }
        i = i + 1;
    }
    false
}

/// Whether `needle` occurs in `hay` as a literal, case-sensitive substring.
pub fn contains_substring(hay: &str, needle: &str) -> (r: bool)
    ensures
        r == is_substring(needle@, hay@),
{
    let h = to_chars(hay);
    let n = to_chars(needle);
    contains_chars(&h, &n)
}

/// The character for one decimal digit.
pub open spec fn spec_digit_char(d: int) -> char {
    if d == 0 {
        '0'
    } else if d == 1 {
        '1'
    } else if d == 2 {
        '2'
    } else if d == 3 {
        '3'
    } else if d == 4 {
        '4'
    } else if d == 5 {
        '5'
    } else if d == 6 {
        '6'
    } else if d == 7 {
        '7'
    } else if d == 8 {
        '8'
    } else {
        '9'
    }
}

/// The decimal digits of a non-negative integer, most significant first.
pub open spec fn spec_nat_digits(n: int) -> Seq<char>
    decreases n,
{
    if n < 10 {
        seq![spec_digit_char(n)]
    } else {
        spec_nat_digits(n / 10).push(spec_digit_char(n % 10))
    }
}

/// The decimal rendering of a signed integer, with a leading `-` when negative.
pub open spec fn spec_int_string(n: int) -> Seq<char> {
    if n < 0 {
        seq!['-'] + spec_nat_digits(-n)
    } else {
        spec_nat_digits(n)
    }
}

fn digit_str(d: u64) -> (s: &'static str)
    requires
        d < 10,
    ensures
        s@ =~= seq![spec_digit_char(d as int)],
{
    proof {
        reveal_strlit("0");
        reveal_strlit("1");
        reveal_strlit("2");
        reveal_strlit("3");
        reveal_strlit("4");
        reveal_strlit("5");
        reveal_strlit("6");
        reveal_strlit("7");
        reveal_strlit("8");
        reveal_strlit("9");
    }
    match d {
        0 => "0",
        1 => "1",
        2 => "2",
        3 => "3",
        4 => "4",
        5 => "5",
        6 => "6",
        7 => "7",
        8 => "8",
        _ => "9",
    }
}

/// The decimal rendering of `n`.
pub fn u64_to_string(n: u64) -> (s: String)
    ensures
        s@ == spec_nat_digits(n as int),
    decreases n,
{
    if n < 10 {
        String::from_str(digit_str(n))
    } else {
        let mut s = u64_to_string(n / 10);
        s.append(digit_str(n % 10));
        proof {
            assert(s@ =~= spec_nat_digits(n as int));
        }
        s
    }
}

/// The decimal rendering of `n`, with a leading `-` when negative.
pub fn i32_to_string(n: i32) -> (s: String)
    ensures
        s@ == spec_int_string(n as int),
{
    let wide: i64 = n as i64;
    if wide < 0 {
        let mut s = String::from_str("-");
        s.append(u64_to_string((-wide) as u64).as_str());
        proof {
            reveal_strlit("-");
            assert(("-")@ =~= seq!['-']);
        }
        s
    } else {
        u64_to_string(n as u64)
    }
}

/// The elements of `vs` joined with the single separator character `sep`
/// between consecutive ones.
pub open spec fn spec_joined(vs: Seq<Seq<char>>, sep: char) -> Seq<char>
    decreases vs.len(),
{
    if vs.len() == 0 {
        Seq::empty()
    } else if vs.len() == 1 {
        vs[0]
    } else {
        spec_joined(vs.drop_last(), sep) + seq![sep] + vs.last()
    }
}

/// Joins the strings of `items` with single spaces, as `join(" ")` does.
pub fn join_with_spaces(items: &Vec<String>) -> (s: String)
    ensures
        s@ == spec_joined(items@.map_values(|e: String| e@), ' '),
{
    let mut s = String::new();
    let mut i: usize = 0;
    while i < items.len()
        invariant
            i <= items@.len(),
            s@ == spec_joined(items@.map_values(|e: String| e@).take(i as int), ' '),
        decreases items@.len() - i,
    {
        if i > 0 {
            s.append(" ");
            proof {
                reveal_strlit(" ");
                assert((" ")@ =~= seq![' ']);
            }
        }
        s.append(items[i].as_str());
        proof {
            let m = items@.map_values(|e: String| e@);
            assert(m.take(i + 1).drop_last() =~= m.take(i as int));
            assert(m.take(i + 1).last() == m[i as int]);
        }
        i = i + 1;
    }
    proof {
        let m = items@.map_values(|e: String| e@);
        assert(m.take(items@.len() as int) =~= m);
    }
    s
}

/// The index of the first line feed in `s`, or `s.len()` when there is none.
pub open spec fn first_newline(s: Seq<char>) -> nat
    decreases s.len(),
{
    if s.len() == 0 {
        0
    } else if s[0] == '\n' {
        0
    } else {
        1 + first_newline(s.drop_first())
    }
}

/// A line feed at `i`, with none before it, makes `i` the first line feed;
/// a string without any line feed has `first_newline` equal to its length.
pub proof fn lemma_first_newline_at(s: Seq<char>, i: int)
    requires
        0 <= i <= s.len(),
        forall|k: int| 0 <= k < i ==> s[k] != '\n',
        i < s.len() ==> s[i] == '\n',
        i == s.len() ==> (forall|k: int| 0 <= k < s.len() ==> s[k] != '\n'),
    ensures
        first_newline(s) == i,
    decreases i,
{
    if i == 0 {
        if s.len() > 0 && s[0] != '\n' {
            assert(false);
        }
    } else {
        lemma_first_newline_at(s.drop_first(), i - 1);
    }
}

/// One trailing carriage return removed, as a line ending `\r\n` leaves it.
pub open spec fn strip_cr(line: Seq<char>) -> Seq<char> {
    if line.len() > 0 && line.last() == '\r' {
        line.drop_last()
    } else {
        line
    }
}

/// The lines of `s`: pieces separated by line feeds, each with one trailing
/// carriage return removed, and no final empty piece after a trailing line
/// feed — exactly the pieces `str::lines` yields.
pub open spec fn spec_split_lines(s: Seq<char>) -> Seq<Seq<char>>
    decreases s.len(),
{
    if s.len() == 0 {
        Seq::empty()
    } else {
        let i = first_newline(s) as int;
        if i >= s.len() {
            seq![s]
        } else {
            seq![strip_cr(s.subrange(0, i))] + spec_split_lines(s.subrange(i + 1, s.len() as int))
        }
    }
}

/// Splits `s` into its lines, as `str::lines` does.
pub fn split_lines(s: &str) -> (r: Vec<String>)
    ensures
        r@.map_values(|e: String| e@) == spec_split_lines(s@),
{
    let cs = to_chars(s);
    let n = cs.len();
    let mut r: Vec<String> = Vec::new();
    let mut start: usize = 0;
    let mut i: usize = 0;
    proof {
        assert(s@.skip(0) =~= s@);
        assert(r@.map_values(|e: String| e@) + spec_split_lines(s@) =~= spec_split_lines(s@));
    }
    while i < n
        invariant
            cs@ == s@,
            n == s@.len(),
            start <= i <= n,
            spec_split_lines(s@) == r@.map_values(|e: String| e@) + spec_split_lines(
                s@.skip(start as int),
            ),
            forall|k: int| start <= k < i ==> s@[k] != '\n',
        decreases n - i,
    {
        if cs[i] == '\n' {
            let line_end = if i > start && cs[i - 1] == '\r' {
                i - 1
            } else {
                i
            };
            let piece = String::from_str(s.substring_char(start, line_end));
            proof {
                let rest = s@.skip(start as int);
                lemma_first_newline_at(rest, i - start);
                assert(rest.subrange(0, i - start) =~= s@.subrange(start as int, i as int));
                assert(rest.subrange(i - start + 1, rest.len() as int) =~= s@.skip(i + 1));
                assert(piece@ =~= strip_cr(s@.subrange(start as int, i as int)));
                let prev = r@.map_values(|e: String| e@);
                assert(prev + spec_split_lines(rest) =~= prev.push(piece@) + spec_split_lines(
                    s@.skip(i + 1),
                ));
            }
            let ghost prev_r = r@;
            r.push(piece);
            proof {
                prev_r.lemma_push_map_commute(|e: String| e@, r@.last());
                assert(r@ =~= prev_r.push(r@.last()));
            }
            start = i + 1;
        }
        i = i + 1;
    }
    if start < n {
        let piece = String::from_str(s.substring_char(start, n));
        proof {
            let rest = s@.skip(start as int);
            lemma_first_newline_at(rest, rest.len() as int);
            assert(piece@ =~= rest);
            let prev = r@.map_values(|e: String| e@);
            assert(prev + spec_split_lines(rest) =~= prev.push(piece@));
        }
        let ghost prev_r = r@;
        r.push(piece);
        proof {
            prev_r.lemma_push_map_commute(|e: String| e@, r@.last());
            assert(r@ =~= prev_r.push(r@.last()));
        }
    } else {
        proof {
            assert(s@.skip(start as int) =~= Seq::<char>::empty());
            assert(r@.map_values(|e: String| e@) + spec_split_lines(Seq::<char>::empty())
                =~= r@.map_values(|e: String| e@));
        }
    }
    r
}

} // verus!
