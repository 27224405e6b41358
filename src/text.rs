//! Splitting text into lines and whitespace-separated tokens, and reading
//! decimal numbers.
use vstd::prelude::*;

verus! {

/// The Unicode White_Space characters.
pub open spec fn is_space(c: char) -> bool {
    ('\u{9}' <= c && c <= '\u{d}') || c == '\u{20}' || c == '\u{85}' || c == '\u{a0}'
        || c == '\u{1680}' || ('\u{2000}' <= c && c <= '\u{200a}') || c == '\u{2028}'
        || c == '\u{2029}' || c == '\u{202f}' || c == '\u{205f}' || c == '\u{3000}'
}

/// Whether `c` is white space.
pub fn is_blank(c: char) -> (r: bool)
    ensures
        r == is_space(c),
{
    ('\u{9}' <= c && c <= '\u{d}') || c == '\u{20}' || c == '\u{85}' || c == '\u{a0}'
        || c == '\u{1680}' || ('\u{2000}' <= c && c <= '\u{200a}') || c == '\u{2028}'
        || c == '\u{2029}' || c == '\u{202f}' || c == '\u{205f}' || c == '\u{3000}'
}

/// Lines of `s[..i]` that ended with a newline, and the unfinished line.
pub open spec fn lines_acc(s: Seq<char>, i: int) -> (Seq<Seq<char>>, Seq<char>)
    decreases i,
{
    if i <= 0 {
        (Seq::empty(), Seq::empty())
    } else {
        let (done, cur) = lines_acc(s, i - 1);
        if s[i - 1] == '\n' {
            (done.push(cur), Seq::empty())
        } else {
            (done, cur.push(s[i - 1]))
        }
    }
}

/// The lines of `s`, separated by newlines; a newline at the very end
/// starts no further line.
pub open spec fn lines_of(s: Seq<char>) -> Seq<Seq<char>> {
    let (done, cur) = lines_acc(s, s.len() as int);
    if cur.len() > 0 { done.push(cur) } else { done }
}

/// Tokens of `s[..i]` followed by whitespace, and the unfinished token.
pub open spec fn tokens_acc(s: Seq<char>, i: int) -> (Seq<Seq<char>>, Seq<char>)
    decreases i,
{
    if i <= 0 {
        (Seq::empty(), Seq::empty())
    } else {
        let (done, cur) = tokens_acc(s, i - 1);
        if is_space(s[i - 1]) {
            if cur.len() > 0 { (done.push(cur), Seq::empty()) } else { (done, cur) }
        } else {
            (done, cur.push(s[i - 1]))
        }
    }
}

/// The maximal runs of non-whitespace characters of `s`.
pub open spec fn tokens_of(s: Seq<char>) -> Seq<Seq<char>> {
    let (done, cur) = tokens_acc(s, s.len() as int);
    if cur.len() > 0 { done.push(cur) } else { done }
}

pub open spec fn is_digit(c: char) -> bool {
    '0' <= c && c <= '9'
}

pub open spec fn all_digits(s: Seq<char>) -> bool {
    forall|i: int| 0 <= i < s.len() ==> is_digit(#[trigger] s[i])
}

/// The number written by the decimal digits `s`.
pub open spec fn digits_value(s: Seq<char>) -> nat
    decreases s.len(),
{
    if s.len() == 0 {
        0
    } else {
        digits_value(s.drop_last()) * 10 + ((s.last() as int - '0' as int) as nat)
    }
}

/// The number written by `s`, if it is a non-empty run of digits whose
/// value is at most `limit`.
pub open spec fn number_value(s: Seq<char>, limit: nat) -> Option<nat> {
    if s.len() > 0 && all_digits(s) && digits_value(s) <= limit {
        Some(digits_value(s))
    } else {
        None
    }
}

/// A count: the number written by `s`, which may start with a plus sign.
pub open spec fn count_value(s: Seq<char>, limit: nat) -> Option<nat> {
    if s.len() > 0 && s[0] == '+' {
        number_value(s.drop_first(), limit)
    } else {
        number_value(s, limit)
    }
}

proof fn lemma_digits_value_grows(s: Seq<char>, i: int)
    requires
        0 <= i <= s.len(),
        all_digits(s),
    ensures
        digits_value(s.subrange(0, i)) <= digits_value(s),
    decreases s.len() - i,
{
    if i < s.len() {
        lemma_digits_value_grows(s, i + 1);
        assert(s.subrange(0, i + 1).drop_last() =~= s.subrange(0, i));
    } else {
        assert(s.subrange(0, i) =~= s);
    }
}

/// The characters of `s`.
pub fn chars_of(s: &str) -> (r: Vec<char>)
    ensures
        r@ == s@,
{
    let mut r: Vec<char> = Vec::new();
    for c in it: s.chars()
        invariant
            it.seq() == s@,
            r@ == it.seq().take(it.index() as int),
    {
        r.push(c);
    }
    assert(r@ =~= s@);
    r
}

/// The characters `s[lo..hi]`.
pub fn slice_of(s: &Vec<char>, lo: usize, hi: usize) -> (r: Vec<char>)
    requires
        lo <= hi <= s@.len(),
    ensures
        r@ == s@.subrange(lo as int, hi as int),
{
    let mut r: Vec<char> = Vec::new();
    let mut i: usize = lo;
    while i < hi
        invariant
            lo <= i <= hi, hi <= s@.len(),
            r@ == s@.subrange(lo as int, i as int),
        decreases hi - i,
    {
        r.push(s[i]);
        i += 1;
        assert(r@ =~= s@.subrange(lo as int, i as int));
    }
    r
}

/// The lines of `s`.
pub fn split_lines(s: &Vec<char>) -> (r: Vec<Vec<char>>)
    ensures
        r@.map_values(|l: Vec<char>| l@) == lines_of(s@),
{
    let mut done: Vec<Vec<char>> = Vec::new();
    let mut cur: Vec<char> = Vec::new();
    let mut i: usize = 0;
    while i < s.len()
        invariant
            i <= s@.len(),
            (done@.map_values(|l: Vec<char>| l@), cur@) == lines_acc(s@, i as int),
        decreases s@.len() - i,
    {
        let ghost d0 = done@;
        if s[i] == '\n' {
            let line = cur;
            done.push(line);
            cur = Vec::new();
            assert(done@.map_values(|l: Vec<char>| l@) =~= d0.map_values(|l: Vec<char>| l@).push(line@));
        } else {
            cur.push(s[i]);
        }
        i += 1;
    }
    let ghost d0 = done@;
    if cur.len() > 0 {
        done.push(cur);
        assert(done@.map_values(|l: Vec<char>| l@) =~= d0.map_values(|l: Vec<char>| l@).push(cur@));
    }
    done
}

/// The whitespace-separated tokens of `s`.
pub fn split_tokens(s: &Vec<char>) -> (r: Vec<Vec<char>>)
    ensures
        r@.map_values(|l: Vec<char>| l@) == tokens_of(s@),
{
    let mut done: Vec<Vec<char>> = Vec::new();
    let mut cur: Vec<char> = Vec::new();
    let mut i: usize = 0;
    while i < s.len()
        invariant
            i <= s@.len(),
            (done@.map_values(|l: Vec<char>| l@), cur@) == tokens_acc(s@, i as int),
        decreases s@.len() - i,
    {
        let c = s[i];
        let ghost d0 = done@;
        if is_blank(c) {
            if cur.len() > 0 {
                let tok = cur;
                done.push(tok);
                cur = Vec::new();
                assert(done@.map_values(|l: Vec<char>| l@) =~= d0.map_values(|l: Vec<char>| l@).push(tok@));
            }
        } else {
            cur.push(c);
        }
        i += 1;
    }
    let ghost d0 = done@;
    if cur.len() > 0 {
        done.push(cur);
        assert(done@.map_values(|l: Vec<char>| l@) =~= d0.map_values(|l: Vec<char>| l@).push(cur@));
    }
    done
}

/// The number written by `s[lo..hi]`, if it is a non-empty run of digits
/// whose value is at most `limit`.
pub fn parse_number(s: &Vec<char>, lo: usize, hi: usize, limit: u64) -> (r: Option<u64>)
    requires
        lo <= hi <= s@.len(),
    ensures
        match number_value(s@.subrange(lo as int, hi as int), limit as nat) {
            Some(v) => r == Some(v as u64),
            None => r is None,
        },
{
    let ghost t = s@.subrange(lo as int, hi as int);
    if lo == hi {
        return None;
    }
    let mut acc: u64 = 0;
    let mut i: usize = lo;
    while i < hi
        invariant
            lo <= i <= hi, hi <= s@.len(), t == s@.subrange(lo as int, hi as int),
            all_digits(t.subrange(0, i - lo)),
            acc as nat == digits_value(t.subrange(0, i - lo)),
            acc <= limit,
        decreases hi - i,
    {
        let c = s[i];
        assert(t[i - lo] == c);
        if !('0' <= c && c <= '9') {
            assert(!all_digits(t));
            return None;
        }
        let d: u64 = (c as u32 - '0' as u32) as u64;
        assert(t.subrange(0, i + 1 - lo).drop_last() =~= t.subrange(0, i - lo));
        assert(all_digits(t.subrange(0, i + 1 - lo)));
        if d > limit || acc > (limit - d) / 10 {
            proof {
                assert(digits_value(t.subrange(0, i + 1 - lo)) > limit) by (nonlinear_arith)
                    requires
                        digits_value(t.subrange(0, i + 1 - lo)) == acc * 10 + d,
                        d > limit || acc > (limit - d) / 10, d <= 9;
                if all_digits(t) {
                    lemma_digits_value_grows(t, i + 1 - lo);
                }
            }
            return None;
        }
        proof {
            assert(acc * 10 + d <= limit) by (nonlinear_arith)
                requires acc <= (limit - d) / 10, d <= limit;
        }
        acc = acc * 10 + d;
        i += 1;
    }
    assert(t.subrange(0, hi - lo) =~= t);
    Some(acc)
}

/// Relies on `FromIterator<&char> for String` (`collect`): the string holds
/// the given characters in order.
#[verifier::external_body]
pub fn string_of(cs: &Vec<char>) -> (r: String)
    ensures
        r@ == cs@,
{
    cs.iter().collect()
}

proof fn lemma_tokens_acc_nonempty(s: Seq<char>, i: int)
    requires
        0 <= i <= s.len(),
    ensures
        forall|k: int| 0 <= k < tokens_acc(s, i).0.len() ==> (#[trigger] tokens_acc(s, i).0[k]).len() > 0,
    decreases i,
{
    if i > 0 {
        lemma_tokens_acc_nonempty(s, i - 1);
        let (d, c) = tokens_acc(s, i - 1);
        if is_space(s[i - 1]) && c.len() > 0 {
            assert forall|k: int| 0 <= k < d.push(c).len() implies (#[trigger] d.push(c)[k]).len() > 0 by {
                if k < d.len() { assert(d.push(c)[k] == d[k]); }
            }
        }
    }
}

/// Every token holds at least one character.
pub proof fn lemma_tokens_nonempty(s: Seq<char>)
    ensures
        forall|k: int| 0 <= k < tokens_of(s).len() ==> (#[trigger] tokens_of(s)[k]).len() > 0,
{
    lemma_tokens_acc_nonempty(s, s.len() as int);
    let (d, c) = tokens_acc(s, s.len() as int);
    if c.len() > 0 {
        assert forall|k: int| 0 <= k < d.push(c).len() implies (#[trigger] d.push(c)[k]).len() > 0 by {
            if k < d.len() { assert(d.push(c)[k] == d[k]); }
        }
    }
}

/// The count written by `s[lo..hi]`, if at most `limit`.
pub fn parse_count(s: &Vec<char>, lo: usize, hi: usize, limit: u64) -> (r: Option<u64>)
    requires
        lo <= hi <= s@.len(),
    ensures
        match count_value(s@.subrange(lo as int, hi as int), limit as nat) {
            Some(v) => r == Some(v as u64),
            None => r is None,
        },
{
    let ghost t = s@.subrange(lo as int, hi as int);
    if lo < hi && s[lo] == '+' {
        assert(t.drop_first() =~= s@.subrange(lo + 1, hi as int));
        parse_number(s, lo + 1, hi, limit)
    } else {
        parse_number(s, lo, hi, limit)
    }
}

} // verus!
