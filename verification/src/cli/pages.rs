//! Page-range arguments such as `"1-5"`, `"1,3,7"` or `"1-3,7,10-12"`.
use crate::text::{owned_text, trim_seq, trim_text};
use vstd::prelude::*;

verus! {

/// Whether `c` is an ASCII decimal digit.
pub open spec fn is_digit(c: char) -> bool {
    '0' <= c <= '9'
}

/// The number written by the decimal digits `s` (most significant first).
pub open spec fn digits_value(s: Seq<char>) -> int
    decreases s.len(),
{
    if s.len() == 0 {
        0
    } else {
        digits_value(s.drop_last()) * 10 + (s.last() as int - '0' as int)
    }
}

/// Whether every character of `d` is an ASCII digit.
pub open spec fn all_digits(d: Seq<char>) -> bool {
    forall|i: int| 0 <= i < d.len() ==> is_digit(#[trigger] d[i])
}

/// `s` without one leading `+`, if it has one.
pub open spec fn unsigned_part(s: Seq<char>) -> Seq<char> {
    if s.len() > 0 && s[0] == '+' {
        s.drop_first()
    } else {
        s
    }
}

/// What `str::parse::<usize>` accepts: an optional `+`, then one or more
/// ASCII digits whose value fits in a `usize`.
pub open spec fn parse_usize_spec(s: Seq<char>) -> Option<usize> {
    let d = unsigned_part(s);
    if d.len() > 0 && all_digits(d) && digits_value(d) <= usize::MAX {
        Some(digits_value(d) as usize)
    } else {
        None
    }
}

/// Index of the first occurrence of `c` in `s`.
pub open spec fn first_index_of(s: Seq<char>, c: char) -> Option<int>
    decreases s.len(),
{
    if s.len() == 0 {
        None
    } else if s[0] == c {
        Some(0)
    } else {
        match first_index_of(s.drop_first(), c) {
            Some(k) => Some(k + 1),
            None => None,
        }
    }
}

/// The pieces of `s` between occurrences of `sep`, as `str::split` gives them.
pub open spec fn split_on(s: Seq<char>, sep: char) -> Seq<Seq<char>>
    decreases s.len(),
{
    match first_index_of(s, sep) {
        Some(k) => if 0 <= k < s.len() {
            seq![s.take(k)] + split_on(s.skip(k + 1), sep)
        } else {
            seq![s]
        },
        None => seq![s],
    }
}

/// Message for text that is not a page number.
pub open spec fn invalid_number_msg(t: Seq<char>) -> Seq<char> {
    "Invalid page number: '"@ + t + "'"@
}

/// Message for a page number of zero.
pub open spec fn zero_page_msg() -> Seq<char> {
    "Page numbers start at 1"@
}

/// Message for a range whose start lies after its end.
pub open spec fn reversed_range_msg(a: Seq<char>, b: Seq<char>) -> Seq<char> {
    "Invalid range: "@ + a + "-"@ + b
}

/// Message for an argument that names no page.
pub open spec fn no_pages_msg() -> Seq<char> {
    "No pages specified"@
}

/// The 0-based pages `a - 1 ..= b - 1` of the 1-based range `a-b`.
pub open spec fn range_pages(a: int, b: int) -> Seq<usize> {
    Seq::new((b - a + 1) as nat, |i: int| (a - 1 + i) as usize)
}

/// The 0-based pages named by one comma-separated part, or the message of
/// its error. A blank part names no page.
pub open spec fn part_pages(part: Seq<char>) -> Result<Seq<usize>, Seq<char>> {
    let t = trim_seq(part);
    if t.len() == 0 {
        Ok(seq![])
    } else {
        match first_index_of(t, '-') {
            Some(k) => {
                let a = trim_seq(t.take(k));
                let b = trim_seq(t.skip(k + 1));
                match (parse_usize_spec(a), parse_usize_spec(b)) {
                    (None, _) => Err(invalid_number_msg(a)),
                    (Some(_), None) => Err(invalid_number_msg(b)),
                    (Some(x), Some(y)) => if x == 0 || y == 0 {
                        Err(zero_page_msg())
                    } else if x > y {
                        Err(reversed_range_msg(a, b))
                    } else {
                        Ok(range_pages(x as int, y as int))
                    },
                }
            },
            None => match parse_usize_spec(t) {
                None => Err(invalid_number_msg(t)),
                Some(x) => if x == 0 {
                    Err(zero_page_msg())
                } else {
                    Ok(seq![(x - 1) as usize])
                },
            },
        }
    }
}

/// The pages of `parts` in order, or the error of the first part that has one.
pub open spec fn parts_pages(parts: Seq<Seq<char>>) -> Result<Seq<usize>, Seq<char>>
    decreases parts.len(),
{
    if parts.len() == 0 {
        Ok(seq![])
    } else {
        match parts_pages(parts.drop_last()) {
            Err(e) => Err(e),
            Ok(ps) => match part_pages(parts.last()) {
                Err(e) => Err(e),
                Ok(q) => Ok(ps + q),
            },
        }
    }
}

/// The 0-based pages named by a page-range argument, or the error message.
pub open spec fn page_ranges_spec(input: Seq<char>) -> Result<Seq<usize>, Seq<char>> {
    match parts_pages(split_on(input, ',')) {
        Err(e) => Err(e),
        Ok(ps) => if ps.len() == 0 {
            Err(no_pages_msg())
        } else {
            Ok(ps)
        },
    }
}

proof fn lemma_digits_prefix_le(d: Seq<char>, k: int)
    requires
        0 <= k <= d.len(),
        forall|i: int| 0 <= i < d.len() ==> is_digit(#[trigger] d[i]),
    ensures
        digits_value(d.take(k)) <= digits_value(d),
        digits_value(d) >= 0,
    decreases d.len(),
{
    if d.len() > 0 {
        let e = d.drop_last();
        assert forall|i: int| 0 <= i < e.len() implies is_digit(#[trigger] e[i]) by {
            assert(e[i] == d[i]);
        }
        assert(is_digit(d[d.len() - 1]));
        if k == d.len() {
            assert(d.take(k) =~= d);
            lemma_digits_prefix_le(e, 0);
        } else {
            assert(e.take(k) =~= d.take(k));
            lemma_digits_prefix_le(e, k);
        }
    } else {
        assert(d.take(k) =~= d);
    }
}

/// Parse a page number as `str::parse::<usize>` does.
pub fn parse_usize(s: &str) -> (r: Option<usize>)
    ensures
        r == parse_usize_spec(s@),
{
    let n = s.unicode_len();
    let start: usize = if n > 0 && s.get_char(0) == '+' { 1 } else { 0 };
    let ghost d = unsigned_part(s@);
    proof {
        assert(d =~= s@.skip(start as int));
    }
    if start >= n {
        proof {
            assert(d.len() == 0);
        }
        return None;
    }
    let mut v: usize = 0;
    let mut i: usize = start;
    while i < n
        invariant
            n == s@.len(),
            start <= i <= n,
            d == s@.skip(start as int),
            d == unsigned_part(s@),
            d.len() > 0,
            forall|j: int| 0 <= j < i - start ==> is_digit(#[trigger] d[j]),
            v == digits_value(d.take(i - start)),
        decreases n - i,
    {
        let c = s.get_char(i);
        proof {
            assert(c == d[i - start]);
        }
        if !('0' <= c && c <= '9') {
            proof {
                assert(!is_digit(d[i - start]));
                lemma_non_digit_is_none(s@, (i - start) as int);
            }
            return None;
        }
        let digit = ((c as u32) - ('0' as u32)) as usize;
        proof {
            assert(d.take(i - start + 1).drop_last() =~= d.take(i - start));
            assert(d.take(i - start + 1).last() == c);
        }
        match v.checked_mul(10) {
            Some(w) => match w.checked_add(digit) {
                Some(x) => {
                    v = x;
                },
                None => {
                    proof {
                        lemma_overflow_is_none(d, i - start + 1);
                    }
                    return None;
                },
            },
            None => {
                proof {
                    lemma_overflow_is_none(d, i - start + 1);
                }
                return None;
            },
        }
        i = i + 1;
    }
    proof {
        assert(d.take(n - start) =~= d);
    }
    Some(v)
}

proof fn lemma_non_digit_is_none(s: Seq<char>, j: int)
    requires
        0 <= j < unsigned_part(s).len(),
        !is_digit(unsigned_part(s)[j]),
    ensures
        parse_usize_spec(s) is None,
{
    assert(!all_digits(unsigned_part(s)));
}

proof fn lemma_overflow_is_none(d: Seq<char>, k: int)
    requires
        0 < k <= d.len(),
        forall|j: int| 0 <= j < k ==> is_digit(#[trigger] d[j]),
        digits_value(d.take(k)) > usize::MAX,
    ensures
        !(all_digits(d) && digits_value(d) <= usize::MAX),
{
    if all_digits(d) {
        lemma_digits_prefix_le(d, k);
    }
}

/// Index of the first `c` in `s`, if any.
fn find_char(s: &str, c: char) -> (r: Option<usize>)
    ensures
        match r {
            Some(k) => first_index_of(s@, c) == Some(k as int) && k < s@.len(),
            None => first_index_of(s@, c) is None,
        },
{
    let n = s.unicode_len();
    let mut i: usize = 0;
    while i < n
        invariant
            n == s@.len(),
            i <= n,
            forall|j: int| 0 <= j < i ==> s@[j] != c,
        decreases n - i,
    {
        if s.get_char(i) == c {
            proof {
                lemma_first_index(s@, c, i as int);
            }
            return Some(i);
        }
        i = i + 1;
    }
    proof {
        lemma_first_index_none(s@, c);
    }
    None
}

proof fn lemma_first_index(s: Seq<char>, c: char, k: int)
    requires
        0 <= k < s.len(),
        s[k] == c,
        forall|j: int| 0 <= j < k ==> s[j] != c,
    ensures
        first_index_of(s, c) == Some(k),
    decreases k,
{
    if k > 0 {
        let t = s.drop_first();
        assert forall|j: int| 0 <= j < k - 1 implies t[j] != c by {
            assert(t[j] == s[j + 1]);
        }
        lemma_first_index(t, c, k - 1);
    }
}

proof fn lemma_first_index_none(s: Seq<char>, c: char)
    requires
        forall|j: int| 0 <= j < s.len() ==> s[j] != c,
    ensures
        first_index_of(s, c) is None,
    decreases s.len(),
{
    if s.len() > 0 {
        let t = s.drop_first();
        assert forall|j: int| 0 <= j < t.len() implies t[j] != c by {
            assert(t[j] == s[j + 1]);
        }
        lemma_first_index_none(t, c);
    }
}

/// `prefix`, then `t`, then `suffix`.
fn framed(prefix: &str, t: &str, suffix: &str) -> (r: String)
    ensures
        r@ == prefix@ + t@ + suffix@,
{
    let mut m = owned_text(prefix);
    m.append(t);
    m.append(suffix);
    m
}

/// The pages named by one comma-separated part.
fn parse_part(part: &str) -> (r: Result<Vec<usize>, String>)
    ensures
        match (r, part_pages(part@)) {
            (Ok(v), Ok(q)) => v@ == q,
            (Err(m), Err(e)) => m@ == e,
            _ => false,
        },
{
    let t = trim_text(part);
    let ts = t.as_str();
    let n = ts.unicode_len();
    if n == 0 {
        return Ok(Vec::new());
    }
    match find_char(ts, '-') {
        Some(k) => {
            let a = trim_text(ts.substring_char(0, k));
            let b = trim_text(ts.substring_char(k + 1, n));
            proof {
                assert(ts@.take(k as int) =~= ts@.subrange(0, k as int));
                assert(ts@.skip(k + 1) =~= ts@.subrange(k + 1, n as int));
            }
            let pa = parse_usize(a.as_str());
            let pb = parse_usize(b.as_str());
            match pa {
                None => Err(framed("Invalid page number: '", a.as_str(), "'")),
                Some(x) => match pb {
                    None => Err(framed("Invalid page number: '", b.as_str(), "'")),
                    Some(y) => {
                        if x == 0 || y == 0 {
                            Err(owned_text("Page numbers start at 1"))
                        } else if x > y {
                            let mut m = owned_text("Invalid range: ");
                            m.append(a.as_str());
                            m.append("-");
                            m.append(b.as_str());
                            Err(m)
                        } else {
                            let mut pages: Vec<usize> = Vec::new();
                            let mut p: usize = x;
                            loop
                                invariant_except_break
                                    0 < x <= p <= y,
                                    pages@ == range_pages(x as int, p as int).drop_last(),
                                ensures
                                    pages@ == range_pages(x as int, y as int),
                                decreases y - p,
                            {
                                pages.push(p - 1);
                                proof {
                                    assert(pages@ =~= range_pages(x as int, p as int));
                                }
                                if p == y {
                                    break;
                                }
                                p = p + 1;
                                proof {
                                    assert(range_pages(x as int, p as int).drop_last() =~= range_pages(
                                        x as int,
                                        (p - 1) as int,
                                    ));
                                }
                            }
                            Ok(pages)
                        }
                    },
                },
            }
        },
        None => match parse_usize(ts) {
            None => Err(framed("Invalid page number: '", ts, "'")),
            Some(x) => {
                if x == 0 {
                    Err(owned_text("Page numbers start at 1"))
                } else {
                    let mut pages: Vec<usize> = Vec::new();
                    pages.push(x - 1);
                    proof {
                        assert(pages@ =~= seq![(x - 1) as usize]);
                    }
                    Ok(pages)
                }
            },
        },
    }
}

/// Parse a page-range argument (`"1-5"`, `"1,3,7"`, `"1-3,7,10-12"`) into
/// 0-based page indices, in the order written. Parts are separated by commas
/// and may be padded with whitespace; blank parts are ignored. A part is a
/// 1-based page number or an inclusive range `a-b` with `a <= b`. The first
/// bad part decides the error; an argument that names no page is an error.
pub fn parse_page_ranges(input: &str) -> (r: Result<Vec<usize>, String>)
    ensures
        match (r, page_ranges_spec(input@)) {
            (Ok(v), Ok(q)) => v@ == q,
            (Err(m), Err(e)) => m@ == e,
            _ => false,
        },
{
    let mut pages: Vec<usize> = Vec::new();
    let n = input.unicode_len();
    let mut start: usize = 0;
    let ghost all_parts = split_on(input@, ',');
    proof {
        assert(input@.skip(0) =~= input@);
        assert(all_parts.skip(0) =~= all_parts);
        assert(all_parts.take(0) =~= Seq::<Seq<char>>::empty());
        assert(pages@ =~= Seq::<usize>::empty());
        assert(parts_pages(all_parts.take(0)) == Ok::<Seq<usize>, Seq<char>>(pages@));
    }
    loop
        invariant
            n == input@.len(),
            start <= n,
            all_parts == split_on(input@, ','),
            exists|done: int|
                0 <= done <= all_parts.len() && all_parts.skip(done) == split_on(input@.skip(start as int), ',')
                    && parts_pages(#[trigger] all_parts.take(done)) == Ok::<Seq<usize>, Seq<char>>(pages@),
        decreases n - start,
    {
        let rest = input.substring_char(start, n);
        proof {
            assert(rest@ =~= input@.skip(start as int));
        }
        let ghost done = choose|done: int|
            0 <= done <= all_parts.len() && all_parts.skip(done) == split_on(input@.skip(start as int), ',')
                && parts_pages(#[trigger] all_parts.take(done)) == Ok::<Seq<usize>, Seq<char>>(pages@);
        let ghost here = split_on(rest@, ',');
        proof {
            assert(all_parts.skip(done) == here);
            assert(here.len() > 0) by {
                reveal_with_fuel(split_on, 2);
            }
            assert(done < all_parts.len());
            assert(all_parts[done] == here[0]);
            assert(all_parts.take(done + 1).drop_last() =~= all_parts.take(done));
            assert(all_parts.take(done + 1).last() == here[0]);
        }
        match find_char(rest, ',') {
            Some(k) => {
                let part = rest.substring_char(0, k);
                proof {
                    assert(part@ =~= rest@.take(k as int));
                    assert(here == seq![rest@.take(k as int)] + split_on(rest@.skip(k + 1), ','));
                    assert(here[0] == part@);
                }
                match parse_part(part) {
                    Ok(mut q) => {
                        pages.append(&mut q);
                        proof {
                            assert(all_parts.skip(done + 1) =~= here.skip(1));
                            assert(here.skip(1) =~= split_on(rest@.skip(k + 1), ','));
                            assert(rest@.skip(k + 1) =~= input@.skip(start + k + 1));
                            assert(parts_pages(all_parts.take(done + 1)) == Ok::<Seq<usize>, Seq<char>>(pages@));
                        }
                        start = start + k + 1;
                    },
                    Err(m) => {
                        proof {
                            lemma_parts_error_persists(all_parts, done + 1);
                        }
                        return Err(m);
                    },
                }
            },
            None => {
                proof {
                    assert(here == seq![rest@]);
                    assert(here[0] == rest@);
                    assert(done + 1 == all_parts.len());
                    assert(all_parts.take(done + 1) =~= all_parts);
                }
                match parse_part(rest) {
                    Ok(mut q) => {
                        pages.append(&mut q);
                        if pages.len() == 0 {
                            return Err(owned_text("No pages specified"));
                        }
                        return Ok(pages);
                    },
                    Err(m) => {
                        return Err(m);
                    },
                }
            },
        }
    }
}

proof fn lemma_parts_error_persists(parts: Seq<Seq<char>>, k: int)
    requires
        0 < k <= parts.len(),
        parts_pages(parts.take(k)) is Err,
    ensures
        parts_pages(parts) == parts_pages(parts.take(k)),
    decreases parts.len() - k,
{
    if k == parts.len() {
        assert(parts.take(k) =~= parts);
    } else {
        assert(parts.drop_last().take(k) =~= parts.take(k));
        lemma_parts_error_persists(parts.drop_last(), k);
    }
}

} // verus!
