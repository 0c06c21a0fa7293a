//! Cell-text cleanup: trimming, collapsing repeated spaces, decoding the
//! one HTML entity that occurs in the source tables, and pulling the text
//! out of an inline anchor tag.

use vstd::prelude::*;
use vstd::string::*;

verus! {

/// Appends one character at the end of a string.
/// Relies on String::push from std.
pub assume_specification[ String::push ](s: &mut String, c: char)
    ensures
        final(s)@ == old(s)@.push(c),
;

/// Whitespace as it occurs inside table cells.
pub open spec fn is_space(c: char) -> bool {
    c == ' ' || c == '\t' || c == '\n' || c == '\r'
}

pub open spec fn trim_front(s: Seq<char>) -> Seq<char>
    decreases s.len(),
{
    if s.len() > 0 && is_space(s.first()) {
        trim_front(s.drop_first())
    } else {
        s
    }
}

pub open spec fn trim_back(s: Seq<char>) -> Seq<char>
    decreases s.len(),
{
    if s.len() > 0 && is_space(s.last()) {
        trim_back(s.drop_last())
    } else {
        s
    }
}

/// The cell with leading and trailing whitespace removed.
pub open spec fn trimmed(s: Seq<char>) -> Seq<char> {
    trim_back(trim_front(s))
}

/// Runs of spaces collapsed to one; `prev` is the character before `s`.
pub open spec fn collapse_from(s: Seq<char>, prev: char) -> Seq<char>
    decreases s.len(),
{
    if s.len() == 0 {
        Seq::empty()
    } else {
        let rest = collapse_from(s.drop_first(), s.first());
        if s.first() != ' ' || prev != ' ' {
            seq![s.first()] + rest
        } else {
            rest
        }
    }
}

pub open spec fn amp_entity() -> Seq<char> {
    seq!['&', 'a', 'm', 'p', ';']
}

/// Every occurrence of `&amp;` decoded to `&`, scanning left to right.
pub open spec fn decode_amp(s: Seq<char>) -> Seq<char>
    decreases s.len(),
{
    if s.len() >= 5 && s.subrange(0, 5) == amp_entity() {
        seq!['&'] + decode_amp(s.skip(5))
    } else if s.len() == 0 {
        Seq::empty()
    } else {
        seq![s.first()] + decode_amp(s.drop_first())
    }
}

/// The full cleanup applied to a text cell.
pub open spec fn cleaned(s: Seq<char>) -> Seq<char> {
    decode_amp(collapse_from(trimmed(s), ' '))
}

/// A text cell resolves to absent when nothing but whitespace is in it.
pub open spec fn clean_cell_spec(s: Seq<char>) -> Option<Seq<char>> {
    if trimmed(s).len() == 0 {
        None
    } else {
        Some(cleaned(s))
    }
}

/// What remains of `s` strictly after the first `>`.
pub open spec fn after_gt(s: Seq<char>) -> Seq<char>
    decreases s.len(),
{
    if s.len() == 0 {
        Seq::empty()
    } else if s.first() == '>' {
        s.drop_first()
    } else {
        after_gt(s.drop_first())
    }
}

/// The prefix of `s` strictly before the first `<`.
pub open spec fn before_lt(s: Seq<char>) -> Seq<char>
    decreases s.len(),
{
    if s.len() == 0 {
        Seq::empty()
    } else if s.first() == '<' {
        Seq::empty()
    } else {
        seq![s.first()] + before_lt(s.drop_first())
    }
}

/// An anchor-wrapped cell reduced to the text between the first `>` and
/// the following `<`; the bare literal `TBA` passes through; an empty
/// cell is absent.
pub open spec fn tag_text_spec(s: Seq<char>) -> Option<Seq<char>> {
    if s.len() == 0 {
        None
    } else if s == seq!['T', 'B', 'A'] {
        Some(seq!['T', 'B', 'A'])
    } else {
        Some(before_lt(after_gt(s)))
    }
}

pub open spec fn is_digit(c: char) -> bool {
    '0' as int <= c as int <= '9' as int
}

pub open spec fn digit_val(c: char) -> int {
    c as int - '0' as int
}

pub open spec fn all_digits(s: Seq<char>) -> bool {
    forall|i: int| 0 <= i < s.len() ==> is_digit(s[i])
}

/// The number written in decimal by the digit characters of `s`.
pub open spec fn digits_val(s: Seq<char>) -> int
    decreases s.len(),
{
    if s.len() == 0 {
        0
    } else {
        digits_val(s.drop_last()) * 10 + digit_val(s.last())
    }
}

/// Index of the first occurrence of `c` in `s`, or `s.len()` if none.
pub open spec fn first_at(s: Seq<char>, c: char) -> int
    decreases s.len(),
{
    if s.len() == 0 {
        0
    } else if s.first() == c {
        0
    } else {
        1 + first_at(s.drop_first(), c)
    }
}

pub proof fn lemma_first_at(s: Seq<char>, c: char)
    ensures
        0 <= first_at(s, c) <= s.len(),
        forall|k: int| 0 <= k < first_at(s, c) ==> s[k] != c,
        first_at(s, c) < s.len() ==> s[first_at(s, c)] == c,
    decreases s.len(),
{
    if s.len() > 0 && s.first() != c {
        lemma_first_at(s.drop_first(), c);
        assert forall|k: int| 0 <= k < first_at(s, c) implies s[k] != c by {
            if k > 0 {
                assert(s.drop_first()[k - 1] != c);
            }
        }
    }
}

/// Whether `s` equals the one-character sequence `a`.
pub fn eq1(s: &str, a: char) -> (r: bool)
    ensures
        r == (s@ == seq![a]),
{
    let n = s.unicode_len();
    if n != 1 {
        proof {
            assert(s@ != seq![a]);
        }
        false
    } else {
        let c0 = s.get_char(0);
        if c0 == a {
            proof {
                assert(s@ =~= seq![a]);
            }
            true
        } else {
            proof {
                assert(s@[0] != seq![a][0]);
            }
            false
        }
    }
}

/// Whether `s` equals the two-character sequence `a, b`.
pub fn eq2(s: &str, a: char, b: char) -> (r: bool)
    ensures
        r == (s@ == seq![a, b]),
{
    let n = s.unicode_len();
    if n != 2 {
        proof {
            assert(s@ != seq![a, b]);
        }
        false
    } else {
        let c0 = s.get_char(0);
        let c1 = s.get_char(1);
        if c0 == a && c1 == b {
            proof {
                assert(s@ =~= seq![a, b]);
            }
            true
        } else {
            proof {
                assert(s@[0] != seq![a, b][0] || s@[1] != seq![a, b][1]);
            }
            false
        }
    }
}

/// Whether `s` equals the three-character sequence `a, b, c`.
pub fn eq3(s: &str, a: char, b: char, c: char) -> (r: bool)
    ensures
        r == (s@ == seq![a, b, c]),
{
    let n = s.unicode_len();
    if n != 3 {
        proof {
            assert(s@ != seq![a, b, c]);
        }
        false
    } else {
        let c0 = s.get_char(0);
        let c1 = s.get_char(1);
        let c2 = s.get_char(2);
        if c0 == a && c1 == b && c2 == c {
            proof {
                assert(s@ =~= seq![a, b, c]);
            }
            true
        } else {
            proof {
                assert(s@[0] != seq![a, b, c][0] || s@[1] != seq![a, b, c][1] || s@[2] != seq![
                    a,
                    b,
                    c,
                ][2]);
            }
            false
        }
    }
}

fn is_space_exec(c: char) -> (r: bool)
    ensures
        r == is_space(c),
{
    c == ' ' || c == '\t' || c == '\n' || c == '\r'
}

/// Trims leading and trailing whitespace.
pub fn trim_exec<'a>(s: &'a str) -> (r: &'a str)
    ensures
        r@ == trimmed(s@),
{
    let n = s.unicode_len();
    let ghost sv = s@;
    let mut i: usize = 0;
    let mut done = false;
    proof {
        assert(sv.subrange(0, n as int) =~= sv);
    }
    while !done
        invariant
            n == sv.len(),
            s@ == sv,
            i <= n,
            trim_front(sv) == trim_front(sv.subrange(i as int, n as int)),
            done ==> (i == n || !is_space(sv[i as int])),
        decreases n - i, (if done { 0int } else { 1int }),
    {
        if i < n {
            let c = s.get_char(i);
            if is_space_exec(c) {
                proof {
                    let t = sv.subrange(i as int, n as int);
                    assert(t.len() > 0 && is_space(t.first()));
                    assert(t.drop_first() =~= sv.subrange(i as int + 1, n as int));
                }
                i = i + 1;
            } else {
                done = true;
            }
        } else {
            done = true;
        }
    }
    proof {
        let t = sv.subrange(i as int, n as int);
        assert(trim_front(t) == t);
        assert(trim_front(sv) == sv.subrange(i as int, n as int));
    }
    let mut j: usize = n;
    let mut done2 = false;
    while !done2
        invariant
            n == sv.len(),
            s@ == sv,
            i <= j <= n,
            trim_front(sv) == sv.subrange(i as int, n as int),
            trim_back(sv.subrange(i as int, n as int)) == trim_back(
                sv.subrange(i as int, j as int),
            ),
            done2 ==> (j == i || !is_space(sv[j as int - 1])),
        decreases j - i, (if done2 { 0int } else { 1int }),
    {
        if j > i {
            let c = s.get_char(j - 1);
            if is_space_exec(c) {
                proof {
                    let t = sv.subrange(i as int, j as int);
                    assert(t.len() > 0 && is_space(t.last()));
                    assert(t.drop_last() =~= sv.subrange(i as int, j as int - 1));
                }
                j = j - 1;
            } else {
                done2 = true;
            }
        } else {
            done2 = true;
        }
    }
    proof {
        let t = sv.subrange(i as int, j as int);
        assert(trim_back(t) == t);
    }
    s.substring_char(i, j)
}

/// Collapses each run of spaces to a single space.
pub fn collapse_exec(s: &str) -> (r: String)
    ensures
        r@ == collapse_from(s@, ' '),
{
    let n = s.unicode_len();
    let ghost sv = s@;
    let mut out = String::new();
    let mut prev: char = ' ';
    let mut i: usize = 0;
    proof {
        assert(sv.subrange(0, n as int) =~= sv);
    }
    while i < n
        invariant
            n == sv.len(),
            s@ == sv,
            i <= n,
            out@ + collapse_from(sv.subrange(i as int, n as int), prev) == collapse_from(sv, ' '),
        decreases n - i,
    {
        let c = s.get_char(i);
        let ghost out0 = out@;
        if c != ' ' || prev != ' ' {
            out.push(c);
        }
        proof {
            let t = sv.subrange(i as int, n as int);
            assert(t.first() == sv[i as int]);
            assert(t.drop_first() =~= sv.subrange(i as int + 1, n as int));
            let rest = collapse_from(t.drop_first(), t.first());
            if c != ' ' || prev != ' ' {
                assert(out@ =~= out0 + seq![c]);
                assert(out@ + rest =~= out0 + (seq![c] + rest));
            }
        }
        prev = c;
        i = i + 1;
    }
    proof {
        assert(sv.subrange(n as int, n as int) =~= Seq::<char>::empty());
        assert(out@ + Seq::<char>::empty() =~= out@);
    }
    out
}

/// Decodes every `&amp;` to `&`.
pub fn decode_amp_exec(s: &str) -> (r: String)
    ensures
        r@ == decode_amp(s@),
{
    let n = s.unicode_len();
    let ghost sv = s@;
    let mut out = String::new();
    let mut i: usize = 0;
    proof {
        assert(sv.subrange(0, n as int) =~= sv);
    }
    while i < n
        invariant
            n == sv.len(),
            s@ == sv,
            i <= n,
            out@ + decode_amp(sv.subrange(i as int, n as int)) == decode_amp(sv),
        decreases n - i,
    {
        let ghost t = sv.subrange(i as int, n as int);
        let ghost out0 = out@;
        if n - i >= 5 && s.get_char(i) == '&' && s.get_char(i + 1) == 'a' && s.get_char(i + 2)
            == 'm' && s.get_char(i + 3) == 'p' && s.get_char(i + 4) == ';' {
            out.push('&');
            proof {
                assert(t.subrange(0, 5) =~= amp_entity());
                assert(t.skip(5) =~= sv.subrange(i as int + 5, n as int));
                let rest = decode_amp(t.skip(5));
                assert(out@ =~= out0 + seq!['&']);
                assert(out@ + rest =~= out0 + (seq!['&'] + rest));
            }
            i = i + 5;
        } else {
            let c = s.get_char(i);
            out.push(c);
            proof {
                if t.len() >= 5 && t.subrange(0, 5) == amp_entity() {
                    assert(t.subrange(0, 5)[0] == sv[i as int]);
                    assert(t.subrange(0, 5)[1] == sv[i as int + 1]);
                    assert(t.subrange(0, 5)[2] == sv[i as int + 2]);
                    assert(t.subrange(0, 5)[3] == sv[i as int + 3]);
                    assert(t.subrange(0, 5)[4] == sv[i as int + 4]);
                    assert(false);
                }
                assert(t.first() == sv[i as int]);
                assert(t.drop_first() =~= sv.subrange(i as int + 1, n as int));
                let rest = decode_amp(t.drop_first());
                assert(out@ =~= out0 + seq![c]);
                assert(out@ + rest =~= out0 + (seq![c] + rest));
            }
            i = i + 1;
        }
    }
    proof {
        assert(sv.subrange(n as int, n as int) =~= Seq::<char>::empty());
        assert(out@ + Seq::<char>::empty() =~= out@);
    }
    out
}

/// Cleans one text cell; whitespace-only cells resolve to absent.
pub fn clean_cell(s: &str) -> (r: Option<String>)
    ensures
        r is Some <==> clean_cell_spec(s@) is Some,
        r matches Some(t) ==> clean_cell_spec(s@) == Some(t@),
{
    let t = trim_exec(s);
    if t.unicode_len() == 0 {
        None
    } else {
        let collapsed = collapse_exec(t);
        Some(decode_amp_exec(collapsed.as_str()))
    }
}

/// Reduces an anchor-wrapped cell to its inner text.
pub fn tag_text(s: &str) -> (r: Option<String>)
    ensures
        r is Some <==> tag_text_spec(s@) is Some,
        r matches Some(t) ==> tag_text_spec(s@) == Some(t@),
{
    let n = s.unicode_len();
    let ghost sv = s@;
    if n == 0 {
        proof {
            assert(sv.len() == 0);
        }
        return None;
    }
    if eq3(s, 'T', 'B', 'A') {
        return Some(s.to_owned());
    }
    // find the first '>'
    let mut g: usize = 0;
    let mut done = false;
    proof {
        assert(sv.subrange(0, n as int) =~= sv);
    }
    while !done
        invariant
            n == sv.len(),
            s@ == sv,
            g <= n,
            after_gt(sv) == after_gt(sv.subrange(g as int, n as int)),
            done ==> (g == n || sv[g as int] == '>'),
        decreases n - g, (if done { 0int } else { 1int }),
    {
        if g < n {
            if s.get_char(g) != '>' {
                proof {
                    let t = sv.subrange(g as int, n as int);
                    assert(t.first() == sv[g as int]);
                    assert(t.drop_first() =~= sv.subrange(g as int + 1, n as int));
                }
                g = g + 1;
            } else {
                done = true;
            }
        } else {
            done = true;
        }
    }
    if g == n {
        proof {
            assert(sv.subrange(g as int, n as int) =~= Seq::<char>::empty());
            assert(before_lt(after_gt(sv)) =~= Seq::<char>::empty());
        }
        return Some(String::new());
    }
    proof {
        let t = sv.subrange(g as int, n as int);
        assert(t.first() == '>');
        assert(t.drop_first() =~= sv.subrange(g as int + 1, n as int));
        assert(after_gt(sv) == sv.subrange(g as int + 1, n as int));
    }
    // take up to the next '<'
    let start = g + 1;
    let mut j: usize = start;
    let mut done2 = false;
    while !done2
        invariant
            n == sv.len(),
            s@ == sv,
            start <= j <= n,
            start == g + 1 <= n,
            after_gt(sv) == sv.subrange(start as int, n as int),
            before_lt(sv.subrange(start as int, n as int)) == sv.subrange(
                start as int,
                j as int,
            ) + before_lt(sv.subrange(j as int, n as int)),
            done2 ==> (j == n || sv[j as int] == '<'),
        decreases n - j, (if done2 { 0int } else { 1int }),
    {
        if j < n {
            if s.get_char(j) != '<' {
                proof {
                    let t = sv.subrange(j as int, n as int);
                    assert(t.first() == sv[j as int]);
                    assert(t.drop_first() =~= sv.subrange(j as int + 1, n as int));
                    assert(before_lt(t) == seq![sv[j as int]] + before_lt(
                        sv.subrange(j as int + 1, n as int),
                    ));
                    assert(sv.subrange(start as int, j as int) + (seq![sv[j as int]] + before_lt(
                        sv.subrange(j as int + 1, n as int),
                    )) =~= sv.subrange(start as int, j as int + 1) + before_lt(
                        sv.subrange(j as int + 1, n as int),
                    ));
                }
                j = j + 1;
            } else {
                done2 = true;
            }
        } else {
            done2 = true;
        }
    }
    proof {
        let t = sv.subrange(j as int, n as int);
        assert(before_lt(t) =~= Seq::<char>::empty());
        assert(sv.subrange(start as int, j as int) + Seq::<char>::empty() =~= sv.subrange(
            start as int,
            j as int,
        ));
    }
    Some(s.substring_char(start, j).to_owned())
}

} // verus!
