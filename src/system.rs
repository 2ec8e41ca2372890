//! Facts about the host read from its text files.
use crate::locator::{leading_spaces, lemma_leading_spaces, line_spans};
use crate::text::{chars_of, is_space, is_space_char, piece, span_texts, split_lines};
use crate::users::line_at;
use vstd::prelude::*;

verus! {

/// Number of `c` at the start of `s`.
pub open spec fn lead_count(s: Seq<char>, c: char) -> nat
    decreases s.len(),
{
    if s.len() == 0 || s[0] != c {
        0
    } else {
        1 + lead_count(s.drop_first(), c)
    }
}

/// Number of `c` at the end of `s`.
pub open spec fn trail_count(s: Seq<char>, c: char) -> nat
    decreases s.len(),
{
    if s.len() == 0 || s.last() != c {
        0
    } else {
        1 + trail_count(s.drop_last(), c)
    }
}

/// Number of spaces at the end of `s`.
pub open spec fn trailing_spaces(s: Seq<char>) -> nat
    decreases s.len(),
{
    if s.len() == 0 || !is_space(s.last()) {
        0
    } else {
        1 + trailing_spaces(s.drop_last())
    }
}

/// `s` without the double quotes at either end.
pub open spec fn strip_quotes(s: Seq<char>) -> Seq<char> {
    let t = s.skip(lead_count(s, '"') as int);
    t.take(t.len() - trail_count(t, '"'))
}

/// `s` without the spaces at either end.
pub open spec fn trim(s: Seq<char>) -> Seq<char> {
    let t = s.skip(leading_spaces(s) as int);
    t.take(t.len() - trailing_spaces(t))
}

/// The value of a `NAME=` line, unquoted.
pub open spec fn name_value(line: Seq<char>) -> Option<Seq<char>> {
    if line.len() >= 5 && line.take(5) == "NAME="@ {
        Some(strip_quotes(line.skip(5)))
    } else {
        None
    }
}

/// The value of the first `NAME=` line among the first `n` lines.
pub open spec fn name_upto(pieces: Seq<Seq<char>>, n: nat) -> Option<Seq<char>>
    decreases n,
{
    if n == 0 {
        None
    } else {
        match name_upto(pieces, (n - 1) as nat) {
            Some(v) => Some(v),
            None => name_value(line_at(pieces, n - 1)),
        }
    }
}

/// The distribution that an `os-release` text names, if any; else the first
/// line of an `issue` text, trimmed, if there is such a text with a line.
pub open spec fn distribution_of(os_release: Option<Seq<char>>, issue: Option<Seq<char>>) -> Option<
    Seq<char>,
> {
    let named = match os_release {
        Some(c) => name_upto(split_lines(c), split_lines(c).len()),
        None => None,
    };
    match named {
        Some(v) => Some(v),
        None => match issue {
            Some(c) => if c.len() > 0 {
                Some(trim(line_at(split_lines(c), 0)))
            } else {
                None
            },
            None => None,
        },
    }
}

proof fn lemma_lead_count(s: Seq<char>, c: char, n: nat)
    requires
        n <= s.len(),
        forall|k: int| 0 <= k < n ==> #[trigger] s[k] == c,
        n == s.len() || s[n as int] != c,
    ensures
        lead_count(s, c) == n,
    decreases n,
{
    if n > 0 {
        lemma_lead_count(s.drop_first(), c, (n - 1) as nat);
    }
}

proof fn lemma_trail_count(s: Seq<char>, c: char, n: nat)
    requires
        n <= s.len(),
        forall|k: int| s.len() - n <= k < s.len() ==> #[trigger] s[k] == c,
        n == s.len() || s[s.len() - n - 1] != c,
    ensures
        trail_count(s, c) == n,
    decreases n,
{
    if n > 0 {
        let t = s.drop_last();
        assert forall|k: int| t.len() - (n - 1) <= k < t.len() implies #[trigger] t[k] == c by {
            assert(t[k] == s[k]);
        }
        if n < s.len() {
            assert(t[t.len() - (n - 1) - 1] == s[s.len() - n - 1]);
        }
        lemma_trail_count(t, c, (n - 1) as nat);
    }
}

proof fn lemma_trailing_spaces(s: Seq<char>, n: nat)
    requires
        n <= s.len(),
        forall|k: int| s.len() - n <= k < s.len() ==> is_space(#[trigger] s[k]),
        n == s.len() || !is_space(s[s.len() - n - 1]),
    ensures
        trailing_spaces(s) == n,
    decreases n,
{
    if n > 0 {
        let t = s.drop_last();
        assert forall|k: int| t.len() - (n - 1) <= k < t.len() implies is_space(#[trigger] t[k]) by {
            assert(t[k] == s[k]);
        }
        if n < s.len() {
            assert(t[t.len() - (n - 1) - 1] == s[s.len() - n - 1]);
        }
        lemma_trailing_spaces(t, (n - 1) as nat);
    }
}

/// Whether `c` is removed from the ends: a space, or a double quote.
fn strippable(c: char, spaces: bool) -> (r: bool)
    ensures
        r == if spaces {
            is_space(c)
        } else {
            c == '"'
        },
{
    if spaces {
        is_space_char(c)
    } else {
        c == '"'
    }
}

/// The bounds of `cs[lo .. hi]` without its quotes (`spaces` false) or its
/// spaces (`spaces` true) at either end.
fn strip_span(cs: &Vec<char>, lo: usize, hi: usize, spaces: bool) -> (r: (usize, usize))
    requires
        lo <= hi <= cs@.len(),
    ensures
        lo <= r.0 <= r.1 <= hi,
        cs@.subrange(r.0 as int, r.1 as int) == if spaces {
            trim(cs@.subrange(lo as int, hi as int))
        } else {
            strip_quotes(cs@.subrange(lo as int, hi as int))
        },
{
    let ghost s = cs@.subrange(lo as int, hi as int);
    let mut a = lo;
    while a < hi && strippable(cs[a], spaces)
        invariant
            lo <= a <= hi <= cs@.len(),
            forall|k: int|
                lo <= k < a ==> if spaces {
                    is_space(#[trigger] cs@[k])
                } else {
                    cs@[k] == '"'
                },
        decreases hi - a,
    {
        a = a + 1;
    }
    let ghost n = (a - lo) as nat;
    proof {
        if a < hi {
            assert(s[n as int] == cs@[a as int]);
        }
        if spaces {
            assert forall|k: int| 0 <= k < n implies is_space(#[trigger] s[k]) by {
                assert(s[k] == cs@[lo + k]);
            }
            lemma_leading_spaces(s, n);
        } else {
            assert forall|k: int| 0 <= k < n implies #[trigger] s[k] == '"' by {
                assert(s[k] == cs@[lo + k]);
            }
            lemma_lead_count(s, '"', n);
        }
        assert(s.skip(n as int) =~= cs@.subrange(a as int, hi as int));
    }
    let ghost t = cs@.subrange(a as int, hi as int);
    let mut b = hi;
    while b > a && strippable(cs[b - 1], spaces)
        invariant
            lo <= a <= b <= hi <= cs@.len(),
            forall|k: int|
                b <= k < hi ==> if spaces {
                    is_space(#[trigger] cs@[k])
                } else {
                    cs@[k] == '"'
                },
        decreases b - a,
    {
        b = b - 1;
    }
    proof {
        let m = (hi - b) as nat;
        if b > a {
            assert(t[t.len() - m - 1] == cs@[b - 1]);
        }
        if spaces {
            assert forall|k: int| t.len() - m <= k < t.len() implies is_space(#[trigger] t[k]) by {
                assert(t[k] == cs@[a + k]);
            }
            lemma_trailing_spaces(t, m);
        } else {
            assert forall|k: int| t.len() - m <= k < t.len() implies #[trigger] t[k] == '"' by {
                assert(t[k] == cs@[a + k]);
            }
            lemma_trail_count(t, '"', m);
        }
        assert(t.take(t.len() - m) =~= cs@.subrange(a as int, b as int));
    }
    (a, b)
}

/// The value of the first `NAME=` line of an `os-release` text.
fn os_release_name(content: &str) -> (r: Option<String>)
    ensures
        match r {
            Some(v) => name_upto(split_lines(content@), split_lines(content@).len()) == Some(v@),
            None => name_upto(split_lines(content@), split_lines(content@).len()) is None,
        },
{
    let cs = chars_of(content);
    let lines = line_spans(&cs);
    let ghost pieces = span_texts(cs@, lines@);
    let key = chars_of("NAME=");
    proof {
        reveal_strlit("NAME=");
    }
    let n = lines.len();
    let mut i: usize = 0;
    while i < n
        invariant
            i <= n == lines@.len(),
            cs@ == content@,
            key@ == "NAME="@,
            key@.len() == 5,
            pieces == span_texts(cs@, lines@),
            pieces == split_lines(cs@),
            forall|j: int|
                0 <= j < lines@.len() ==> (#[trigger] lines@[j]).0 <= lines@[j].1 <= cs@.len(),
            name_upto(pieces, i as nat) is None,
        decreases n - i,
    {
        let a = lines[i].0;
        let mut b = lines[i].1;
        proof {
            assert(pieces[i as int] == cs@.subrange(a as int, b as int));
        }
        if i + 1 < n && b > a && cs[b - 1] == '\r' {
            b = b - 1;
            proof {
                assert(cs@.subrange(a as int, b as int) =~= pieces[i as int].drop_last());
            }
        }
        let ghost line = cs@.subrange(a as int, b as int);
        assert(line_at(pieces, i as int) == line);
        if b - a >= 5 && crate::text::matches_at(&cs, a, &key) {
            proof {
                assert(line.take(5) =~= cs@.subrange(a as int, a + 5));
                assert(line.skip(5) =~= cs@.subrange(a + 5, b as int));
            }
            let (x, y) = strip_span(&cs, a + 5, b, false);
            let v = piece(content, x, y);
            proof {
                lemma_name_upto_stable(pieces, (i + 1) as nat, n as nat);
            }
            return Some(v);
        }
        proof {
            if line.len() >= 5 {
                assert(line.take(5) =~= cs@.subrange(a as int, a + 5));
            }
        }
        i = i + 1;
    }
    None
}

proof fn lemma_name_upto_stable(pieces: Seq<Seq<char>>, m: nat, n: nat)
    requires
        m <= n,
        name_upto(pieces, m) is Some,
    ensures
        name_upto(pieces, n) == name_upto(pieces, m),
    decreases n - m,
{
    if m < n {
        lemma_name_upto_stable(pieces, m, (n - 1) as nat);
    }
}

/// The first line of an `issue` text, trimmed.
fn issue_first_line(content: &str) -> (r: Option<String>)
    ensures
        match r {
            Some(v) => content@.len() > 0 && v@ == trim(line_at(split_lines(content@), 0)),
            None => content@.len() == 0,
        },
{
    let cs = chars_of(content);
    if cs.len() == 0 {
        return None;
    }
    let lines = line_spans(&cs);
    let ghost pieces = span_texts(cs@, lines@);
    proof {
        assert(pieces == split_lines(cs@));
        assert(pieces.len() > 0) by {
            let k = crate::text::line_len(cs@);
            if k < cs@.len() {
                assert(split_lines(cs@) =~= seq![cs@.take(k as int)] + split_lines(cs@.skip(k as int + 1)));
            }
        }
    }
    let a = lines[0].0;
    let mut b = lines[0].1;
    proof {
        assert(pieces[0] == cs@.subrange(a as int, b as int));
    }
    if 1 < lines.len() && b > a && cs[b - 1] == '\r' {
        b = b - 1;
        proof {
            assert(cs@.subrange(a as int, b as int) =~= pieces[0].drop_last());
        }
    }
    assert(line_at(pieces, 0) == cs@.subrange(a as int, b as int));
    let (x, y) = strip_span(&cs, a, b, true);
    Some(piece(content, x, y))
}

/// The name of the Linux distribution, from the text of `/etc/os-release`,
/// else from that of `/etc/issue` (each where it could be read).
pub fn get_linux_distribution(os_release: Option<&str>, issue: Option<&str>) -> (r: Option<String>)
    ensures
        match r {
            Some(v) => distribution_of(
                match os_release {
                    Some(c) => Some(c@),
                    None => None,
                },
                match issue {
                    Some(c) => Some(c@),
                    None => None,
                },
            ) == Some(v@),
            None => distribution_of(
                match os_release {
                    Some(c) => Some(c@),
                    None => None,
                },
                match issue {
                    Some(c) => Some(c@),
                    None => None,
                },
            ) is None,
        },
{
    match os_release {
        Some(c) => match os_release_name(c) {
            Some(v) => {
                return Some(v);
            },
            None => {},
        },
        None => {},
    }
    match issue {
        Some(c) => issue_first_line(c),
        None => None,
    }
}

} // verus!
