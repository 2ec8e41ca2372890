//! Character-level text handling: whitespace, fields and lines, with their
//! mathematical models over `Seq<char>`.
use vstd::prelude::*;
use vstd::std_specs::iter::IteratorSpec;

verus! {

/// The Unicode `White_Space` characters, the set that `char::is_whitespace`,
/// `str::trim` and `str::split_whitespace` use.
pub open spec fn is_space(c: char) -> bool {
    let n = c as u32;
    (0x09 <= n && n <= 0x0d) || n == 0x20 || n == 0x85 || n == 0xa0 || n == 0x1680 || (0x2000 <= n
        && n <= 0x200a) || n == 0x2028 || n == 0x2029 || n == 0x202f || n == 0x205f || n == 0x3000
}

/// Length of the run of non-space characters at the start of `s`.
pub open spec fn word_len(s: Seq<char>) -> nat
    decreases s.len(),
{
    if s.len() == 0 || is_space(s[0]) {
        0
    } else {
        1 + word_len(s.drop_first())
    }
}

/// The whitespace-separated fields of `s`, in order: what `split_whitespace` yields.
pub open spec fn fields(s: Seq<char>) -> Seq<Seq<char>>
    decreases s.len(),
{
    if s.len() == 0 {
        seq![]
    } else if is_space(s[0]) {
        fields(s.drop_first())
    } else {
        let n = word_len(s);
        if 0 < n <= s.len() {
            seq![s.take(n as int)] + fields(s.skip(n as int))
        } else {
            seq![]
        }
    }
}

/// The pieces of `s` between line feeds, in order (a final piece after the last
/// line feed included, empty or not).
pub open spec fn split_lines(s: Seq<char>) -> Seq<Seq<char>>
    decreases s.len(),
{
    let k = line_len(s);
    if k < s.len() {
        seq![s.take(k as int)] + split_lines(s.skip(k as int + 1))
    } else {
        seq![s]
    }
}

/// Length of the text before the first line feed of `s` (all of `s` if none).
pub open spec fn line_len(s: Seq<char>) -> nat
    decreases s.len(),
{
    if s.len() == 0 || s[0] == '\n' {
        0
    } else {
        1 + line_len(s.drop_first())
    }
}

/// Length of the text before the first `sep` of `s` (all of `s` if none).
pub open spec fn sep_len(s: Seq<char>, sep: char) -> nat
    decreases s.len(),
{
    if s.len() == 0 || s[0] == sep {
        0
    } else {
        1 + sep_len(s.drop_first(), sep)
    }
}

/// The pieces of `s` between occurrences of `sep`, in order: what
/// `str::split` yields for a character.
pub open spec fn split_on(s: Seq<char>, sep: char) -> Seq<Seq<char>>
    decreases s.len(),
{
    let k = sep_len(s, sep);
    if k < s.len() {
        seq![s.take(k as int)] + split_on(s.skip(k as int + 1), sep)
    } else {
        seq![s]
    }
}

/// Whether `c` is an ASCII digit.
pub open spec fn is_digit(c: char) -> bool {
    '0' <= c && c <= '9'
}

/// The number that a run of digits denotes.
pub open spec fn digits_value(d: Seq<char>) -> nat
    decreases d.len(),
{
    if d.len() == 0 {
        0
    } else {
        digits_value(d.drop_last()) * 10 + ((d.last() as u32) - ('0' as u32)) as nat
    }
}

/// Whether every character of `d` is an ASCII digit.
pub open spec fn all_digits(d: Seq<char>) -> bool {
    forall|k: int| 0 <= k < d.len() ==> is_digit(#[trigger] d[k])
}

/// `s` without one leading `+`.
pub open spec fn unsigned_part(s: Seq<char>) -> Seq<char> {
    if s.len() > 0 && s[0] == '+' {
        s.drop_first()
    } else {
        s
    }
}

/// What `u32::from_str` gives: an optional `+`, then at least one digit and
/// nothing else, of a value that fits.
pub open spec fn parse_u32(s: Seq<char>) -> Option<u32> {
    let d = unsigned_part(s);
    if d.len() > 0 && all_digits(d) && digits_value(d) <= u32::MAX {
        Some(digits_value(d) as u32)
    } else {
        None
    }
}

/// The fields joined by single spaces.
pub open spec fn join_spaced(f: Seq<Seq<char>>) -> Seq<char>
    decreases f.len(),
{
    if f.len() == 0 {
        seq![]
    } else if f.len() == 1 {
        f[0]
    } else {
        f[0] + seq![' '] + join_spaced(f.drop_first())
    }
}

/// A field as `split_whitespace` can yield it: non-empty, with no space in it.
pub open spec fn is_field(w: Seq<char>) -> bool {
    w.len() > 0 && forall|k: int| 0 <= k < w.len() ==> !is_space(#[trigger] w[k])
}

/// The text of each span `(start, end)` of `s`.
pub open spec fn span_texts(s: Seq<char>, sp: Seq<(usize, usize)>) -> Seq<Seq<char>> {
    Seq::new(sp.len(), |j: int| s.subrange(sp[j].0 as int, sp[j].1 as int))
}

pub fn is_space_char(c: char) -> (r: bool)
    ensures
        r == is_space(c),
{
    let n = c as u32;
    (0x09 <= n && n <= 0x0d) || n == 0x20 || n == 0x85 || n == 0xa0 || n == 0x1680 || (0x2000 <= n
        && n <= 0x200a) || n == 0x2028 || n == 0x2029 || n == 0x202f || n == 0x205f || n == 0x3000
}

/// Whether `pat` stands in `cs` from position `i`.
pub fn matches_at(cs: &Vec<char>, i: usize, pat: &Vec<char>) -> (r: bool)
    requires
        i <= cs@.len(),
    ensures
        r == (pat@.len() <= cs@.len() - i && cs@.subrange(i as int, i + pat@.len()) == pat@),
{
    if pat.len() > cs.len() - i {
        return false;
    }
    let n = cs.len();
    let mut k: usize = 0;
    while k < pat.len()
        invariant
            n == cs@.len(),
            i <= cs@.len(),
            k <= pat@.len() <= cs@.len() - i,
            cs@.subrange(i as int, i + k) == pat@.take(k as int),
        decreases pat@.len() - k,
    {
        if cs[i + k] != pat[k] {
            proof {
                assert(cs@.subrange(i as int, i + pat@.len())[k as int] == cs@[i + k]);
            }
            return false;
        }
        proof {
            assert(cs@.subrange(i as int, i + k + 1) =~= cs@.subrange(i as int, i + k).push(
                cs@[i + k],
            ));
            assert(pat@.take(k + 1) =~= pat@.take(k as int).push(pat@[k as int]));
        }
        k = k + 1;
    }
    proof {
        assert(pat@.take(k as int) =~= pat@);
    }
    true
}

/// Whether a string holds the text of `b`.
pub fn same_text(a: &String, b: &str) -> (r: bool)
    ensures
        r == (a@ == b@),
{
    *a == b.to_owned()
}

/// The characters of `s`, in order.
pub fn chars_of(s: &str) -> (r: Vec<char>)
    ensures
        r@ == s@,
{
    broadcast use vstd::string::group_string_axioms;

    let mut v: Vec<char> = Vec::new();
    let mut it = s.chars();
    loop
        invariant
            it.obeys_prophetic_iter_laws(),
            v@ + it.remaining() == s@,
            it.decrease() is Some,
        ensures
            v@ == s@,
        decreases it.decrease()->0,
    {
        match it.next() {
            Some(c) => {
                v.push(c);
            },
            None => {
                assert(v@ =~= v@ + it.remaining());
                break ;
            },
        }
    }
    v
}

/// An owned copy of the characters `from .. to` of `s`.
pub fn piece(s: &str, from: usize, to: usize) -> (r: String)
    requires
        from <= to <= s@.len(),
    ensures
        r@ == s@.subrange(from as int, to as int),
{
    s.substring_char(from, to).to_owned()
}

pub proof fn lemma_word_len(s: Seq<char>, n: nat)
    requires
        n <= s.len(),
        forall|k: int| 0 <= k < n ==> !is_space(#[trigger] s[k]),
        n == s.len() || is_space(s[n as int]),
    ensures
        word_len(s) == n,
    decreases n,
{
    if n > 0 {
        lemma_word_len(s.drop_first(), (n - 1) as nat);
    }
}

pub proof fn lemma_word_len_bound(s: Seq<char>)
    ensures
        word_len(s) <= s.len(),
        forall|k: int| 0 <= k < word_len(s) ==> !is_space(#[trigger] s[k]),
        word_len(s) < s.len() ==> is_space(s[word_len(s) as int]),
    decreases s.len(),
{
    if s.len() > 0 && !is_space(s[0]) {
        lemma_word_len_bound(s.drop_first());
        assert forall|k: int| 0 <= k < word_len(s) implies !is_space(#[trigger] s[k]) by {
            if k > 0 {
                assert(s[k] == s.drop_first()[k - 1]);
            }
        }
    }
}

/// Each field is non-empty and holds no space.
pub proof fn lemma_fields_are_fields(s: Seq<char>)
    ensures
        forall|j: int| 0 <= j < fields(s).len() ==> is_field(#[trigger] fields(s)[j]),
    decreases s.len(),
{
    if s.len() > 0 {
        if is_space(s[0]) {
            lemma_fields_are_fields(s.drop_first());
            assert(fields(s) == fields(s.drop_first()));
        } else {
            lemma_word_len_bound(s);
            let n = word_len(s);
            lemma_fields_are_fields(s.skip(n as int));
            assert forall|j: int| 0 <= j < fields(s).len() implies is_field(
                #[trigger] fields(s)[j],
            ) by {
                if j > 0 {
                    assert(fields(s)[j] == fields(s.skip(n as int))[j - 1]);
                } else {
                    assert(n > 0);
                    let w = s.take(n as int);
                    assert(fields(s)[0] == w);
                    assert forall|k: int| 0 <= k < w.len() implies !is_space(#[trigger] w[k]) by {
                        assert(w[k] == s[k]);
                    }
                }
            }
        }
    }
}

pub proof fn lemma_line_len(s: Seq<char>, n: nat)
    requires
        n <= s.len(),
        forall|k: int| 0 <= k < n ==> #[trigger] s[k] != '\n',
        n == s.len() || s[n as int] == '\n',
    ensures
        line_len(s) == n,
    decreases n,
{
    if n > 0 {
        lemma_line_len(s.drop_first(), (n - 1) as nat);
    }
}

/// A line without line feed, a line feed, then the rest.
pub proof fn lemma_split_lines_cons(a: Seq<char>, rest: Seq<char>)
    requires
        forall|k: int| 0 <= k < a.len() ==> #[trigger] a[k] != '\n',
    ensures
        split_lines(a + seq!['\n'] + rest) == seq![a] + split_lines(rest),
{
    let s = a + seq!['\n'] + rest;
    assert forall|k: int| 0 <= k < a.len() implies #[trigger] s[k] != '\n' by {
        assert(s[k] == a[k]);
    }
    lemma_line_len(s, a.len());
    assert(s.take(a.len() as int) =~= a);
    assert(s.skip(a.len() as int + 1) =~= rest);
}

/// The first field of a line that starts with a non-space starts with that
/// character.
pub proof fn lemma_first_field_start(s: Seq<char>)
    requires
        s.len() > 0,
        !is_space(s[0]),
    ensures
        fields(s).len() > 0,
        fields(s)[0][0] == s[0],
{
    lemma_word_len_bound(s);
    assert(word_len(s) == 1 + word_len(s.drop_first()));
}

/// Every character of fields joined by single spaces is a space separator or
/// no space at all.
pub proof fn lemma_join_chars(f: Seq<Seq<char>>)
    requires
        forall|j: int| 0 <= j < f.len() ==> is_field(#[trigger] f[j]),
    ensures
        forall|k: int|
            0 <= k < join_spaced(f).len() ==> #[trigger] join_spaced(f)[k] == ' ' || !is_space(
                join_spaced(f)[k],
            ),
    decreases f.len(),
{
    if f.len() == 1 {
        assert(is_field(f[0]));
    } else if f.len() > 1 {
        let rest = f.drop_first();
        assert forall|j: int| 0 <= j < rest.len() implies is_field(#[trigger] rest[j]) by {
            assert(rest[j] == f[j + 1]);
        }
        lemma_join_chars(rest);
        assert(is_field(f[0]));
        let s = join_spaced(f);
        assert forall|k: int| 0 <= k < s.len() implies #[trigger] s[k] == ' ' || !is_space(s[k]) by {
            if k < f[0].len() {
                assert(s[k] == f[0][k]);
            } else if k > f[0].len() {
                assert(s[k] == join_spaced(rest)[k - f[0].len() - 1]);
            }
        }
    }
}

pub proof fn lemma_sep_len(s: Seq<char>, sep: char, n: nat)
    requires
        n <= s.len(),
        forall|k: int| 0 <= k < n ==> #[trigger] s[k] != sep,
        n == s.len() || s[n as int] == sep,
    ensures
        sep_len(s, sep) == n,
    decreases n,
{
    if n > 0 {
        lemma_sep_len(s.drop_first(), sep, (n - 1) as nat);
    }
}

/// The spans of the pieces of `cs[lo .. hi]` between occurrences of `sep`.
pub fn split_spans(cs: &Vec<char>, lo: usize, hi: usize, sep: char) -> (r: Vec<(usize, usize)>)
    requires
        lo <= hi <= cs@.len(),
    ensures
        span_texts(cs@, r@) == split_on(cs@.subrange(lo as int, hi as int), sep),
        forall|j: int| 0 <= j < r@.len() ==> lo <= (#[trigger] r@[j]).0 <= r@[j].1 <= hi,
{
    let ghost whole = cs@.subrange(lo as int, hi as int);
    let mut spans: Vec<(usize, usize)> = Vec::new();
    let mut a: usize = lo;
    proof {
        assert(cs@.subrange(a as int, hi as int) =~= whole);
        assert(span_texts(cs@, spans@) + split_on(whole, sep) =~= split_on(whole, sep));
    }
    loop
        invariant_except_break
            split_on(whole, sep) == span_texts(cs@, spans@) + split_on(
                cs@.subrange(a as int, hi as int),
                sep,
            ),
        invariant
            whole == cs@.subrange(lo as int, hi as int),
            lo <= a <= hi <= cs@.len(),
            forall|j: int| 0 <= j < spans@.len() ==> lo <= (#[trigger] spans@[j]).0 <= spans@[j].1 <= hi,
        ensures
            split_on(whole, sep) == span_texts(cs@, spans@),
            forall|j: int| 0 <= j < spans@.len() ==> lo <= (#[trigger] spans@[j]).0 <= spans@[j].1 <= hi,
        decreases hi - a,
    {
        let mut k: usize = a;
        while k < hi && cs[k] != sep
            invariant
                a <= k <= hi <= cs@.len(),
                forall|m: int| a <= m < k ==> #[trigger] cs@[m] != sep,
            decreases hi - k,
        {
            k = k + 1;
        }
        let ghost s = cs@.subrange(a as int, hi as int);
        proof {
            let len = (k - a) as nat;
            assert forall|m: int| 0 <= m < len implies #[trigger] s[m] != sep by {
                assert(s[m] == cs@[a + m]);
            }
            if k < hi {
                assert(s[len as int] == cs@[k as int]);
            }
            lemma_sep_len(s, sep, len);
            assert(s.take(len as int) =~= cs@.subrange(a as int, k as int));
            assert(span_texts(cs@, spans@.push((a, k))) =~= span_texts(cs@, spans@).push(
                cs@.subrange(a as int, k as int),
            ));
        }
        spans.push((a, k));
        if k == hi {
            proof {
                assert(s =~= cs@.subrange(a as int, k as int));
                assert(span_texts(cs@, spans@) =~= span_texts(cs@, spans@.drop_last()) + seq![s]);
            }
            break ;
        }
        proof {
            assert(s.skip((k - a) + 1) =~= cs@.subrange(k + 1, hi as int));
            assert(span_texts(cs@, spans@.drop_last()) + split_on(s, sep) =~= span_texts(cs@, spans@)
                + split_on(cs@.subrange(k + 1, hi as int), sep));
        }
        a = k + 1;
    }
    spans
}

proof fn lemma_digits_value_monotone(d: Seq<char>, c: char)
    requires
        is_digit(c),
    ensures
        digits_value(d.push(c)) >= digits_value(d),
        digits_value(d.push(c)) == digits_value(d) * 10 + ((c as u32) - ('0' as u32)) as nat,
{
    assert(d.push(c).drop_last() =~= d);
}

/// The number that `cs[lo .. hi]` denotes as `u32::from_str` reads it.
pub fn parse_u32_span(cs: &Vec<char>, lo: usize, hi: usize) -> (r: Option<u32>)
    requires
        lo <= hi <= cs@.len(),
    ensures
        r == parse_u32(cs@.subrange(lo as int, hi as int)),
{
    let ghost s = cs@.subrange(lo as int, hi as int);
    let mut start = lo;
    if lo < hi && cs[lo] == '+' {
        start = lo + 1;
    }
    proof {
        if lo < hi && cs@[lo as int] == '+' {
            assert(s.drop_first() =~= cs@.subrange(start as int, hi as int));
        } else {
            assert(s =~= cs@.subrange(start as int, hi as int));
        }
    }
    let ghost d = cs@.subrange(start as int, hi as int);
    if start == hi {
        return None;
    }
    let mut acc: u64 = 0;
    let mut i: usize = start;
    while i < hi
        invariant
            lo <= start <= i <= hi <= cs@.len(),
            s == cs@.subrange(lo as int, hi as int),
            d == cs@.subrange(start as int, hi as int),
            d == unsigned_part(s),
            forall|k: int| start <= k < i ==> is_digit(#[trigger] cs@[k]),
            acc as nat == if digits_value(cs@.subrange(start as int, i as int)) > u32::MAX {
                u32::MAX as nat + 1
            } else {
                digits_value(cs@.subrange(start as int, i as int))
            },
        decreases hi - i,
    {
        let c = cs[i];
        if !('0' <= c && c <= '9') {
            proof {
                assert(d[i - start] == c);
                assert(!is_digit(d[i - start]));
                assert(!all_digits(d));
            }
            return None;
        }
        proof {
            let p = cs@.subrange(start as int, i as int);
            assert(cs@.subrange(start as int, i + 1) =~= p.push(c));
            lemma_digits_value_monotone(p, c);
        }
        let digit = (c as u32 - '0' as u32) as u64;
        if acc > u32::MAX as u64 {
            acc = u32::MAX as u64 + 1;
        } else {
            let next = acc * 10 + digit;
            acc = if next > u32::MAX as u64 {
                u32::MAX as u64 + 1
            } else {
                next
            };
        }
        i = i + 1;
    }
    proof {
        assert(cs@.subrange(start as int, i as int) =~= d);
        assert forall|k: int| 0 <= k < d.len() implies is_digit(#[trigger] d[k]) by {
            assert(d[k] == cs@[start + k]);
        }
    }
    if acc > u32::MAX as u64 {
        None
    } else {
        Some(acc as u32)
    }
}

/// A space in front changes no field.
pub proof fn lemma_fields_space_front(c: char, s: Seq<char>)
    requires
        is_space(c),
    ensures
        fields(seq![c] + s) == fields(s),
{
    assert((seq![c] + s).drop_first() =~= s);
}

/// A field, then a space, then the rest.
pub proof fn lemma_fields_word_front(w: Seq<char>, rest: Seq<char>)
    requires
        is_field(w),
        rest.len() == 0 || is_space(rest[0]),
    ensures
        fields(w + rest) == seq![w] + fields(rest),
{
    let s = w + rest;
    lemma_word_len(s, w.len());
    assert(s.take(w.len() as int) =~= w);
    assert(s.skip(w.len() as int) =~= rest);
}

/// Splitting fields joined by single spaces gives the fields back.
pub proof fn lemma_fields_join(f: Seq<Seq<char>>)
    requires
        forall|j: int| 0 <= j < f.len() ==> is_field(#[trigger] f[j]),
    ensures
        fields(join_spaced(f)) == f,
    decreases f.len(),
{
    if f.len() == 0 {
        assert(fields(seq![]) == Seq::<Seq<char>>::empty());
    } else if f.len() == 1 {
        assert(is_field(f[0]));
        lemma_fields_word_front(f[0], seq![]);
        assert(f[0] + Seq::<char>::empty() =~= f[0]);
        assert(fields(Seq::<char>::empty()) == Seq::<Seq<char>>::empty());
        assert(seq![f[0]] + Seq::<Seq<char>>::empty() =~= f);
    } else {
        let rest = f.drop_first();
        assert forall|j: int| 0 <= j < rest.len() implies is_field(#[trigger] rest[j]) by {
            assert(rest[j] == f[j + 1]);
        }
        lemma_fields_join(rest);
        let tail = seq![' '] + join_spaced(rest);
        assert(is_field(f[0]));
        lemma_fields_word_front(f[0], tail);
        assert(f[0] + seq![' '] + join_spaced(rest) =~= f[0] + tail);
        assert(is_space(' '));
        lemma_fields_space_front(' ', join_spaced(rest));
        assert(seq![f[0]] + rest =~= f);
    }
}

/// `span_texts` grows by one text when a span is pushed.
pub proof fn lemma_span_texts_push(s: Seq<char>, sp: Seq<(usize, usize)>, x: (usize, usize))
    ensures
        span_texts(s, sp.push(x)) =~= span_texts(s, sp).push(s.subrange(x.0 as int, x.1 as int)),
{
}

/// The spans of the fields of `cs[lo .. hi]`, in order.
pub fn field_spans(cs: &Vec<char>, lo: usize, hi: usize) -> (r: Vec<(usize, usize)>)
    requires
        lo <= hi <= cs@.len(),
    ensures
        span_texts(cs@, r@) == fields(cs@.subrange(lo as int, hi as int)),
        forall|j: int|
            0 <= j < r@.len() ==> lo <= (#[trigger] r@[j]).0 < r@[j].1 <= hi,
{
    let mut spans: Vec<(usize, usize)> = Vec::new();
    let mut i: usize = lo;
    while i < hi
        invariant
            lo <= i <= hi <= cs@.len(),
            fields(cs@.subrange(lo as int, hi as int)) == span_texts(cs@, spans@) + fields(
                cs@.subrange(i as int, hi as int),
            ),
            forall|j: int| 0 <= j < spans@.len() ==> lo <= (#[trigger] spans@[j]).0 < spans@[j].1 <= i,
        decreases hi - i,
    {
        if is_space_char(cs[i]) {
            proof {
                let s = cs@.subrange(i as int, hi as int);
                assert(s.drop_first() =~= cs@.subrange(i + 1, hi as int));
            }
            i = i + 1;
        } else {
            let a = i;
            i = i + 1;
            while i < hi && !is_space_char(cs[i])
                invariant
                    a < i <= hi <= cs@.len(),
                    forall|k: int| a <= k < i ==> !is_space(#[trigger] cs@[k]),
                decreases hi - i,
            {
                i = i + 1;
            }
            proof {
                let s = cs@.subrange(a as int, hi as int);
                let n = (i - a) as nat;
                assert forall|k: int| 0 <= k < n implies !is_space(#[trigger] s[k]) by {
                    assert(s[k] == cs@[a + k]);
                }
                if n < s.len() {
                    assert(s[n as int] == cs@[i as int]);
                }
                lemma_word_len(s, n);
                assert(s.take(n as int) =~= cs@.subrange(a as int, i as int));
                assert(s.skip(n as int) =~= cs@.subrange(i as int, hi as int));
                lemma_span_texts_push(cs@, spans@, (a, i));
                let old_texts = span_texts(cs@, spans@);
                assert(old_texts + fields(s) =~= old_texts.push(cs@.subrange(a as int, i as int))
                    + fields(cs@.subrange(i as int, hi as int)));
            }
            spans.push((a, i));
        }
    }
    proof {
        assert(cs@.subrange(i as int, hi as int) =~= Seq::<char>::empty());
        assert(span_texts(cs@, spans@) + Seq::<Seq<char>>::empty() =~= span_texts(cs@, spans@));
    }
    spans
}

} // verus!
