//! Comma-separated lists of sizes, as the benchmark takes them on its command
//! line: each field trimmed of white space and read as a decimal `usize`
//! with an optional `+` sign.
use vstd::prelude::*;
use vstd::string::StrSliceExecFns;

verus! {

/// Characters with the Unicode White_Space property.
pub open spec fn is_white_space(c: char) -> bool {
    ||| c == '\t' || c == '\n' || c == '\u{0B}' || c == '\u{0C}' || c == '\r' || c == ' '
    ||| c == '\u{85}' || c == '\u{A0}' || c == '\u{1680}'
    ||| ('\u{2000}' <= c && c <= '\u{200A}')
    ||| c == '\u{2028}' || c == '\u{2029}' || c == '\u{202F}' || c == '\u{205F}' || c == '\u{3000}'
}

pub(crate) fn white_space(c: char) -> (r: bool)
    ensures
        r == is_white_space(c),
{
    c == '\t' || c == '\n' || c == '\u{0B}' || c == '\u{0C}' || c == '\r' || c == ' '
        || c == '\u{85}' || c == '\u{A0}' || c == '\u{1680}'
        || ('\u{2000}' <= c && c <= '\u{200A}')
        || c == '\u{2028}' || c == '\u{2029}' || c == '\u{202F}' || c == '\u{205F}' || c == '\u{3000}'
}

/// `s` without leading white space.
pub open spec fn trim_start(s: Seq<char>) -> Seq<char>
    decreases s.len(),
{
    if s.len() > 0 && is_white_space(s[0]) { trim_start(s.drop_first()) } else { s }
}

/// `s` without trailing white space.
pub open spec fn trim_end(s: Seq<char>) -> Seq<char>
    decreases s.len(),
{
    if s.len() > 0 && is_white_space(s.last()) { trim_end(s.drop_last()) } else { s }
}

/// `s` without leading or trailing white space.
pub open spec fn trim(s: Seq<char>) -> Seq<char> {
    trim_end(trim_start(s))
}

/// The pieces of `s` between occurrences of `sep` (one piece when `sep`
/// does not occur).
pub open spec fn split_on(s: Seq<char>, sep: char) -> Seq<Seq<char>>
    decreases s.len(),
{
    if s.len() == 0 {
        seq![Seq::empty()]
    } else {
        let r = split_on(s.drop_last(), sep);
        if s.last() == sep {
            r.push(Seq::empty())
        } else {
            r.update(r.len() - 1, r.last().push(s.last()))
        }
    }
}

/// The fields of `s` between commas (one field when there is no comma).
pub open spec fn split_commas(s: Seq<char>) -> Seq<Seq<char>> {
    split_on(s, ',')
}

/// Value of a string of decimal digits.
pub open spec fn digits_value(d: Seq<char>) -> int
    decreases d.len(),
{
    if d.len() == 0 { 0 } else { digits_value(d.drop_last()) * 10 + (d.last() as int - 48) }
}

/// Every character is an ASCII digit.
pub open spec fn all_digits(d: Seq<char>) -> bool {
    forall|i: int| 0 <= i < d.len() ==> '0' <= #[trigger] d[i] && d[i] <= '9'
}

/// A decimal `usize` with an optional leading `+`, as `str::parse` reads it.
pub open spec fn parse_usize(s: Seq<char>) -> Option<usize> {
    let d = if s.len() > 0 && s[0] == '+' { s.drop_first() } else { s };
    if d.len() == 0 || !all_digits(d) || digits_value(d) > usize::MAX {
        None
    } else {
        Some(digits_value(d) as usize)
    }
}

/// The index of the first field that does not read as a size, if any.
pub open spec fn first_bad_field(fields: Seq<Seq<char>>) -> Option<int>
    decreases fields.len(),
{
    if fields.len() == 0 {
        None
    } else {
        match first_bad_field(fields.drop_last()) {
            Some(i) => Some(i),
            None => if parse_usize(trim(fields.last())) is None { Some(fields.len() - 1) } else { None },
        }
    }
}

/// Why a size list is refused.
#[derive(Debug, Clone)]
pub enum SizeListError {
    /// A field, as written, that is not a size.
    InvalidSize(String),
    /// The list holds no size.
    Empty,
}

/// The sizes a list names, or the first field that is not a size.
pub open spec fn spec_parse_sizes(s: Seq<char>) -> Result<Seq<usize>, Seq<char>> {
    let fields = split_commas(s);
    match first_bad_field(fields) {
        Some(i) => Err(fields[i]),
        None => Ok(fields.map_values(|f: Seq<char>| parse_usize(trim(f))->0)),
    }
}

pub(crate) proof fn lemma_split_nonempty(s: Seq<char>, sep: char)
    ensures
        split_on(s, sep).len() >= 1,
    decreases s.len(),
{
    if s.len() > 0 {
        lemma_split_nonempty(s.drop_last(), sep);
    }
}

proof fn lemma_trim_start_range(s: Seq<char>, a: int, k: int, b: int)
    requires
        0 <= a <= k <= b <= s.len(),
        forall|j: int| a <= j < k ==> is_white_space(#[trigger] s[j]),
        k == b || !is_white_space(s[k]),
    ensures
        trim_start(s.subrange(a, b)) == s.subrange(k, b),
    decreases k - a,
{
    if a < k {
        assert(s.subrange(a, b).drop_first() =~= s.subrange(a + 1, b));
        lemma_trim_start_range(s, a + 1, k, b);
    } else {
        if k < b {
            assert(s.subrange(a, b)[0] == s[k]);
        }
    }
}

proof fn lemma_trim_end_range(s: Seq<char>, a: int, k: int, b: int)
    requires
        0 <= a <= k <= b <= s.len(),
        forall|j: int| k <= j < b ==> is_white_space(#[trigger] s[j]),
        k == a || !is_white_space(s[k - 1]),
    ensures
        trim_end(s.subrange(a, b)) == s.subrange(a, k),
    decreases b - k,
{
    if k < b {
        assert(s.subrange(a, b).drop_last() =~= s.subrange(a, b - 1));
        lemma_trim_end_range(s, a, k, b - 1);
    } else {
        if a < k {
            assert(s.subrange(a, b).last() == s[k - 1]);
        }
    }
}

proof fn lemma_digits_value_nonneg(d: Seq<char>)
    requires
        all_digits(d),
    ensures
        digits_value(d) >= 0,
    decreases d.len(),
{
    if d.len() > 0 {
        assert(all_digits(d.drop_last())) by {
            assert forall|i: int| 0 <= i < d.drop_last().len() implies '0' <= #[trigger] d.drop_last()[i] && d.drop_last()[i] <= '9' by {
                assert(d.drop_last()[i] == d[i]);
            }
        }
        lemma_digits_value_nonneg(d.drop_last());
        assert('0' <= d[d.len() - 1]);
    }
}

proof fn lemma_digits_value_grows(d: Seq<char>, k: int)
    requires
        all_digits(d),
        0 <= k <= d.len(),
    ensures
        digits_value(d.take(k)) <= digits_value(d),
    decreases d.len() - k,
{
    if k < d.len() {
        let e = d.drop_last();
        assert(all_digits(e)) by {
            assert forall|i: int| 0 <= i < e.len() implies '0' <= #[trigger] e[i] && e[i] <= '9' by {
                assert(e[i] == d[i]);
            }
        }
        lemma_digits_value_grows(e, k);
        assert(e.take(k) =~= d.take(k));
        lemma_digits_value_nonneg(e);
        assert('0' <= d[d.len() - 1]);
    } else {
        assert(d.take(k) =~= d);
    }
}

/// Reads one field `chars[a..b]`: trimmed, then a decimal `usize`.
fn parse_field(chars: &Vec<char>, a: usize, b: usize) -> (r: Option<usize>)
    requires
        a <= b <= chars@.len(),
    ensures
        r == parse_usize(trim(chars@.subrange(a as int, b as int))),
{
    let mut lo = a;
    while lo < b && white_space(chars[lo])
        invariant
            a <= lo <= b <= chars@.len(),
            forall|j: int| a <= j < lo ==> is_white_space(#[trigger] chars@[j]),
        decreases b - lo,
    {
        lo = lo + 1;
    }
    let mut hi = b;
    while hi > lo && white_space(chars[hi - 1])
        invariant
            a <= lo <= hi <= b <= chars@.len(),
            forall|j: int| hi <= j < b ==> is_white_space(#[trigger] chars@[j]),
        decreases hi - lo,
    {
        hi = hi - 1;
    }
    proof {
        lemma_trim_start_range(chars@, a as int, lo as int, b as int);
        lemma_trim_end_range(chars@, lo as int, hi as int, b as int);
        assert(trim(chars@.subrange(a as int, b as int)) == chars@.subrange(lo as int, hi as int));
    }
    let ghost t = chars@.subrange(lo as int, hi as int);
    let mut p = lo;
    if p < hi && chars[p] == '+' {
        p = p + 1;
    }
    let ghost d = chars@.subrange(p as int, hi as int);
    proof {
        assert(t.len() > 0 ==> t[0] == chars@[lo as int]);
        if lo < hi && chars@[lo as int] == '+' {
            assert(t.drop_first() =~= d);
        } else {
            assert(t =~= d);
        }
    }
    if p == hi {
        return None;
    }
    let mut v: usize = 0;
    let mut i = p;
    while i < hi
        invariant
            p <= i <= hi <= chars@.len(),
            p < hi,
            d == chars@.subrange(p as int, hi as int),
            trim(chars@.subrange(a as int, b as int)) == t,
            d == (if t.len() > 0 && t[0] == '+' { t.drop_first() } else { t }),
            all_digits(d.take(i - p)),
            v == digits_value(d.take(i - p)),
        decreases hi - i,
    {
        let c = chars[i];
        proof {
            assert(d[i - p] == c);
        }
        if c < '0' || c > '9' {
            proof {
                assert(!all_digits(d));
            }
            return None;
        }
        let digit = (c as u32 - 48) as usize;
        proof {
            assert(d.take(i - p + 1).drop_last() =~= d.take(i - p));
            assert(all_digits(d.take(i - p + 1))) by {
                assert forall|j: int| 0 <= j < d.take(i - p + 1).len() implies '0' <= #[trigger] d.take(i - p + 1)[j] && d.take(i - p + 1)[j] <= '9' by {
                    if j < i - p {
                        assert(d.take(i - p + 1)[j] == d.take(i - p)[j]);
                    }
                }
            }
        }
        match v.checked_mul(10) {
            None => {
                proof {
                    let k = i - p + 1;
                    if all_digits(d) {
                        lemma_digits_value_grows(d, k as int);
                        lemma_digits_value_nonneg(d.take(i - p));
                    }
                }
                return None;
            },
            Some(w) => match w.checked_add(digit) {
                None => {
                    proof {
                        let k = i - p + 1;
                        if all_digits(d) {
                            lemma_digits_value_grows(d, k as int);
                        }
                    }
                    return None;
                },
                Some(x) => {
                    v = x;
                },
            },
        }
        i = i + 1;
    }
    proof {
        assert(d.take(hi - p) =~= d);
    }
    Some(v)
}

pub(crate) fn chars_of(s: &str) -> (r: Vec<char>)
    ensures
        r@ == s@,
{
    let n = s.unicode_len();
    let mut out: Vec<char> = Vec::new();
    let mut i: usize = 0;
    while i < n
        invariant
            i <= n,
            n == s@.len(),
            out@ == s@.take(i as int),
        decreases n - i,
    {
        out.push(s.get_char(i));
        i = i + 1;
        proof {
            assert(out@ =~= s@.take(i as int));
        }
    }
    proof {
        assert(s@.take(n as int) =~= s@);
    }
    out
}

/// The bounds `(start, end)` of the pieces of `chars` between occurrences
/// of `sep`.
pub(crate) fn field_bounds(chars: &Vec<char>, sep: char) -> (bounds: Vec<(usize, usize)>)
    ensures
        forall|k: int| 0 <= k < bounds@.len() ==> (#[trigger] bounds@[k]).0 <= bounds@[k].1 <= chars@.len(),
        bounds@.map_values(|p: (usize, usize)| chars@.subrange(p.0 as int, p.1 as int)) == split_on(chars@, sep),
{
    let n = chars.len();
    let ghost s = chars@;
    let mut bounds: Vec<(usize, usize)> = Vec::new();
    let mut start: usize = 0;
    let mut i: usize = 0;
    proof {
        assert(s.take(0) =~= Seq::<char>::empty());
        assert(bounds@.map_values(|p: (usize, usize)| s.subrange(p.0 as int, p.1 as int)).push(s.subrange(0, 0))
            =~= seq![Seq::<char>::empty()]);
    }
    while i < n
        invariant
            i <= n,
            n == s.len(),
            s == chars@,
            start <= i,
            forall|k: int| 0 <= k < bounds@.len() ==> (#[trigger] bounds@[k]).0 <= bounds@[k].1 <= i,
            bounds@.map_values(|p: (usize, usize)| s.subrange(p.0 as int, p.1 as int)).push(s.subrange(start as int, i as int))
                == split_on(s.take(i as int), sep),
        decreases n - i,
    {
        let ghost prev = bounds@;
        proof {
            assert(s.take(i + 1).drop_last() =~= s.take(i as int));
            lemma_split_nonempty(s.take(i as int), sep);
        }
        if chars[i] == sep {
            let ghost st0 = start;
            bounds.push((start, i));
            start = i + 1;
            proof {
                assert(s.subrange(start as int, (i + 1) as int) =~= Seq::<char>::empty());
                assert(bounds@.map_values(|p: (usize, usize)| s.subrange(p.0 as int, p.1 as int))
                    =~= prev.map_values(|p: (usize, usize)| s.subrange(p.0 as int, p.1 as int)).push(s.subrange(st0 as int, i as int)));
            }
        } else {
            proof {
                assert(s.subrange(start as int, (i + 1) as int) =~= s.subrange(start as int, i as int).push(s[i as int]));
            }
        }
        i = i + 1;
        proof {
            assert(bounds@.map_values(|p: (usize, usize)| s.subrange(p.0 as int, p.1 as int)).push(s.subrange(start as int, i as int))
                =~= split_on(s.take(i as int), sep));
        }
    }
    let ghost prev = bounds@;
    bounds.push((start, n));
    proof {
        assert(s.take(n as int) =~= s);
        assert(bounds@.map_values(|p: (usize, usize)| s.subrange(p.0 as int, p.1 as int))
            =~= prev.map_values(|p: (usize, usize)| s.subrange(p.0 as int, p.1 as int)).push(s.subrange(start as int, n as int)));
    }
    bounds
}

/// Reads a comma-separated list of sizes. Fails on the first field that is
/// not a size, naming it as written.
pub fn parse_sizes(value: &str) -> (r: Result<Vec<usize>, SizeListError>)
    ensures
        match spec_parse_sizes(value@) {
            Ok(v) => r matches Ok(sizes) && sizes@ == v,
            Err(f) => r matches Err(SizeListError::InvalidSize(t)) && t@ == f,
        },
{
    let chars = chars_of(value);
    let n = chars.len();
    let ghost s = chars@;
    let bounds = field_bounds(&chars, ',');
    let ghost fields = split_commas(s);
    proof {
        lemma_split_nonempty(s, ',');
    }
    let mut out: Vec<usize> = Vec::new();
    let mut k: usize = 0;
    while k < bounds.len()
        invariant
            k <= bounds@.len(),
            s == chars@,
            s == value@,
            fields == split_commas(s),
            n == s.len(),
            forall|j: int| 0 <= j < bounds@.len() ==> (#[trigger] bounds@[j]).0 <= bounds@[j].1 <= n,
            bounds@.map_values(|p: (usize, usize)| s.subrange(p.0 as int, p.1 as int)) == fields,
            first_bad_field(fields.take(k as int)) is None,
            out@ == fields.take(k as int).map_values(|f: Seq<char>| parse_usize(trim(f))->0),
        decreases bounds@.len() - k,
    {
        let (a, b) = bounds[k];
        proof {
            assert(fields[k as int] == s.subrange(a as int, b as int));
            assert(fields.take(k + 1).drop_last() =~= fields.take(k as int));
        }
        match parse_field(&chars, a, b) {
            None => {
                proof {
                    assert(first_bad_field(fields.take(k + 1)) == Some(k as int));
                    lemma_first_bad_prefix(fields, (k + 1) as int);
                }
                let field = value.substring_char(a, b);
                let t = field.to_string();
                proof {
                    assert(field@ == fields[k as int]);
                    assert(t@ == field@);
                    assert(first_bad_field(fields) == Some(k as int));
                    assert(fields == split_commas(value@));
                    assert(spec_parse_sizes(value@) == Err::<Seq<usize>, Seq<char>>(fields[k as int]));
                }
                return Err(SizeListError::InvalidSize(t));
            },
            Some(v) => {
                out.push(v);
                proof {
                    assert(out@ =~= fields.take(k + 1).map_values(|f: Seq<char>| parse_usize(trim(f))->0));
                }
            },
        }
        k = k + 1;
    }
    proof {
        assert(fields.take(bounds@.len() as int) =~= fields);
    }
    if out.len() == 0 {
        return Err(SizeListError::Empty);
    }
    Ok(out)
}

proof fn lemma_first_bad_prefix(fields: Seq<Seq<char>>, k: int)
    requires
        0 <= k <= fields.len(),
        first_bad_field(fields.take(k)) is Some,
    ensures
        first_bad_field(fields) == first_bad_field(fields.take(k)),
    decreases fields.len() - k,
{
    if k < fields.len() {
        assert(fields.drop_last().take(k) =~= fields.take(k));
        lemma_first_bad_prefix(fields.drop_last(), k);
    } else {
        assert(fields.take(k) =~= fields);
    }
}

} // verus!
