//! Reading a command line: splitting it at commas, trimming white space, and
//! reading unsigned 32-bit numbers.
use vstd::prelude::*;
use vstd::string::StrSliceExecFns;
use crate::text::decimal;

verus! {

/// The characters with the Unicode `White_Space` property.
pub open spec fn is_white_space(c: char) -> bool {
    let u = c as u32;
    ||| 9 <= u <= 13
    ||| u == 32
    ||| u == 0x85
    ||| u == 0xA0
    ||| u == 0x1680
    ||| 0x2000 <= u <= 0x200A
    ||| u == 0x2028
    ||| u == 0x2029
    ||| u == 0x202F
    ||| u == 0x205F
    ||| u == 0x3000
}

/// `s` without its leading white space.
pub open spec fn trim_start(s: Seq<char>) -> Seq<char>
    decreases s.len(),
{
    if s.len() > 0 && is_white_space(s[0]) {
        trim_start(s.drop_first())
    } else {
        s
    }
}

/// `s` without its trailing white space.
pub open spec fn trim_end(s: Seq<char>) -> Seq<char>
    decreases s.len(),
{
    if s.len() > 0 && is_white_space(s.last()) {
        trim_end(s.drop_last())
    } else {
        s
    }
}

/// `s` without leading or trailing white space.
pub open spec fn trim(s: Seq<char>) -> Seq<char> {
    trim_end(trim_start(s))
}

/// The position of the first comma of `s` at or after `i`, or the length of `s`.
pub open spec fn first_comma(s: Seq<char>, i: int) -> int
    decreases s.len() - i,
{
    if i >= s.len() {
        s.len() as int
    } else if s[i] == ',' {
        i
    } else {
        first_comma(s, i + 1)
    }
}

pub proof fn lemma_first_comma(s: Seq<char>, i: int)
    requires
        0 <= i <= s.len(),
    ensures
        i <= first_comma(s, i) <= s.len(),
        first_comma(s, i) < s.len() ==> s[first_comma(s, i)] == ',',
        forall|k: int| i <= k < first_comma(s, i) ==> s[k] != ',',
    decreases s.len() - i,
{
    if i < s.len() && s[i] != ',' {
        lemma_first_comma(s, i + 1);
    }
}

/// The comma-separated pieces of `s` from position `start` on.
pub open spec fn fields_from(s: Seq<char>, start: int) -> Seq<Seq<char>>
    decreases s.len() - start,
{
    if start < 0 || start > s.len() {
        Seq::empty()
    } else {
        let k = first_comma(s, start);
        proof {
            lemma_first_comma(s, start);
        }
        if k >= s.len() {
            seq![s.subrange(start, s.len() as int)]
        } else {
            seq![s.subrange(start, k)] + fields_from(s, k + 1)
        }
    }
}

/// The comma-separated pieces of `s`; there is always at least one.
pub open spec fn fields(s: Seq<char>) -> Seq<Seq<char>> {
    fields_from(s, 0)
}

/// The comma-separated pieces of `s`, each trimmed of white space.
pub open spec fn components(s: Seq<char>) -> Seq<Seq<char>> {
    fields(s).map_values(|f: Seq<char>| trim(f))
}

/// A decimal digit.
pub open spec fn is_digit(c: char) -> bool {
    '0' <= c <= '9'
}

/// The number that a string of decimal digits spells.
pub open spec fn digits_value(s: Seq<char>) -> nat
    decreases s.len(),
{
    if s.len() == 0 {
        0
    } else {
        digits_value(s.drop_last()) * 10 + ((s.last() as u32) - 48) as nat
    }
}

/// What reading `s` as a `u32` gives: an optional `+`, then one or more decimal
/// digits whose value fits in 32 bits; anything else is refused.
pub open spec fn parse_u32(s: Seq<char>) -> Option<u32> {
    parse_digits(if s.len() > 0 && s[0] == '+' { s.drop_first() } else { s })
}

/// What reading `digits` as a `u32` without a sign gives: one or more decimal digits
/// whose value fits in 32 bits; anything else is refused.
pub open spec fn parse_digits(digits: Seq<char>) -> Option<u32> {
    if digits.len() == 0 || exists|i: int| 0 <= i < digits.len() && !is_digit(#[trigger] digits[i]) {
        None
    } else if digits_value(digits) > u32::MAX {
        None
    } else {
        Some(digits_value(digits) as u32)
    }
}

/// The characters of `s`.
pub fn chars_of(s: &str) -> (chars: Vec<char>)
    ensures
        chars@ == s@,
{
    let n = s.unicode_len();
    let mut chars: Vec<char> = Vec::new();
    let mut i: usize = 0;
    while i < n
        invariant
            n == s@.len(),
            i <= n,
            chars@ == s@.take(i as int),
        decreases n - i,
    {
        chars.push(s.get_char(i));
        proof {
            assert(s@.take(i + 1) =~= s@.take(i as int).push(s@[i as int]));
        }
        i = i + 1;
    }
    proof {
        assert(s@.take(n as int) =~= s@);
    }
    chars
}

/// Whether `c` has the Unicode `White_Space` property.
pub fn white_space(c: char) -> (ws: bool)
    ensures
        ws == is_white_space(c),
{
    let u = c as u32;
    (9 <= u && u <= 13) || u == 32 || u == 0x85 || u == 0xA0 || u == 0x1680 || (0x2000 <= u && u <= 0x200A)
        || u == 0x2028 || u == 0x2029 || u == 0x202F || u == 0x205F || u == 0x3000
}

/// The bounds of `s[lo..hi]` trimmed of white space.
pub fn trim_bounds(s: &Vec<char>, lo: usize, hi: usize) -> (bounds: (usize, usize))
    requires
        lo <= hi <= s@.len(),
    ensures
        lo <= bounds.0 <= bounds.1 <= hi,
        s@.subrange(bounds.0 as int, bounds.1 as int) == trim(s@.subrange(lo as int, hi as int)),
{
    let mut a = lo;
    while a < hi && white_space(s[a])
        invariant
            lo <= a <= hi <= s@.len(),
            trim_start(s@.subrange(lo as int, hi as int)) == trim_start(s@.subrange(a as int, hi as int)),
        decreases hi - a,
    {
        proof {
            assert(s@.subrange(a as int, hi as int).drop_first() =~= s@.subrange(a + 1, hi as int));
        }
        a = a + 1;
    }
    let mut b = hi;
    while b > a && white_space(s[b - 1])
        invariant
            lo <= a <= b <= hi <= s@.len(),
            trim_end(s@.subrange(a as int, hi as int)) == trim_end(s@.subrange(a as int, b as int)),
        decreases b - a,
    {
        proof {
            assert(s@.subrange(a as int, b as int).drop_last() =~= s@.subrange(a as int, b - 1));
        }
        b = b - 1;
    }
    (a, b)
}

/// The bounds of the comma-separated pieces of `s`.
pub fn field_bounds(s: &Vec<char>) -> (bounds: Vec<(usize, usize)>)
    ensures
        bounds@.len() == fields(s@).len(),
        forall|k: int| 0 <= k < bounds@.len() ==> {
            &&& (#[trigger] bounds@[k]).0 <= bounds@[k].1 <= s@.len()
            &&& s@.subrange(bounds@[k].0 as int, bounds@[k].1 as int) == fields(s@)[k]
        },
{
    let n = s.len();
    let mut bounds: Vec<(usize, usize)> = Vec::new();
    let mut start: usize = 0;
    let mut done = false;
    while !done
        invariant
            n == s@.len(),
            start <= n,
            done ==> bounds@.len() == fields(s@).len(),
            !done ==> bounds@.len() + fields_from(s@, start as int).len() == fields(s@).len(),
            !done ==> forall|k: int| 0 <= k < fields_from(s@, start as int).len()
                ==> #[trigger] fields(s@)[bounds@.len() + k] == fields_from(s@, start as int)[k],
            forall|k: int| 0 <= k < bounds@.len() ==> {
                &&& (#[trigger] bounds@[k]).0 <= bounds@[k].1 <= n
                &&& s@.subrange(bounds@[k].0 as int, bounds@[k].1 as int) == fields(s@)[k]
            },
        decreases n - start + (if done { 0int } else { 1int }),
    {
        let mut k = start;
        while k < n && s[k] != ','
            invariant
                n == s@.len(),
                start <= k <= n,
                first_comma(s@, start as int) == first_comma(s@, k as int),
            decreases n - k,
        {
            k = k + 1;
        }
        proof {
            lemma_first_comma(s@, start as int);
        }
        let ghost ff = fields_from(s@, start as int);
        let ghost m: int = bounds@.len() as int;
        bounds.push((start, k));
        proof {
            assert(fields(s@)[m + 0] == ff[0]);
        }
        if k == n {
            done = true;
        } else {
            proof {
                assert forall|j: int| 0 <= j < fields_from(s@, k + 1).len()
                    implies #[trigger] fields(s@)[bounds@.len() + j] == fields_from(s@, k + 1)[j] by {
                    assert(ff[j + 1] == fields_from(s@, k + 1)[j]);
                    assert(fields(s@)[m + (j + 1)] == ff[j + 1]);
                }
            }
            start = k + 1;
        }
    }
    bounds
}

proof fn lemma_digits_value_prefix(s: Seq<char>, k: int)
    requires
        0 <= k <= s.len(),
        forall|i: int| 0 <= i < s.len() ==> is_digit(#[trigger] s[i]),
    ensures
        digits_value(s.take(k)) <= digits_value(s),
    decreases s.len(),
{
    if k < s.len() {
        let rest = s.drop_last();
        assert(rest.take(k) =~= s.take(k));
        assert forall|i: int| 0 <= i < rest.len() implies is_digit(#[trigger] rest[i]) by {
            assert(rest[i] == s[i]);
        }
        lemma_digits_value_prefix(rest, k);
    } else {
        assert(s.take(k) =~= s);
    }
}

/// Reads `s[lo..hi]` as a `u32`.
pub fn read_u32(s: &Vec<char>, lo: usize, hi: usize) -> (value: Option<u32>)
    requires
        lo <= hi <= s@.len(),
    ensures
        value == parse_u32(s@.subrange(lo as int, hi as int)),
{
    let ghost text = s@.subrange(lo as int, hi as int);
    let mut i = lo;
    if hi > lo && s[lo] == '+' {
        i = lo + 1;
    }
    let ghost digits = s@.subrange(i as int, hi as int);
    proof {
        if hi > lo && s@[lo as int] == '+' {
            assert(digits =~= text.drop_first());
        } else {
            assert(digits =~= text);
        }
    }
    if i == hi {
        return None;
    }
    let mut acc: u64 = 0;
    let mut j = i;
    while j < hi
        invariant
            lo <= i <= j <= hi <= s@.len(),
            digits == s@.subrange(i as int, hi as int),
            parse_u32(s@.subrange(lo as int, hi as int)) == parse_digits(digits),
            acc == digits_value(s@.subrange(i as int, j as int)),
            acc <= u32::MAX,
            forall|k: int| i <= k < j ==> is_digit(#[trigger] s@[k]),
        decreases hi - j,
    {
        let c = s[j];
        if !('0' <= c && c <= '9') {
            proof {
                assert(!is_digit(digits[j - i]));
            }
            return None;
        }
        proof {
            assert(s@.subrange(i as int, j + 1).drop_last() =~= s@.subrange(i as int, j as int));
        }
        acc = acc * 10 + ((c as u32) - 48) as u64;
        if acc > 0xffff_ffff {
            proof {
                if forall|k: int| 0 <= k < digits.len() ==> is_digit(#[trigger] digits[k]) {
                    assert(digits.take(j + 1 - i) =~= s@.subrange(i as int, j + 1));
                    lemma_digits_value_prefix(digits, j + 1 - i);
                } else {
                    let k = choose|k: int| 0 <= k < digits.len() && !is_digit(#[trigger] digits[k]);
                    assert(!is_digit(digits[k]));
                }
            }
            return None;
        }
        j = j + 1;
    }
    proof {
        assert(s@.subrange(i as int, j as int) =~= digits);
        assert forall|k: int| 0 <= k < digits.len() implies is_digit(#[trigger] digits[k]) by {
            assert(digits[k] == s@[i + k]);
        }
    }
    Some(acc as u32)
}

/// `s` holds no comma.
pub open spec fn comma_free(s: Seq<char>) -> bool {
    forall|i: int| 0 <= i < s.len() ==> s[i] != ','
}

proof fn lemma_first_comma_shift(s: Seq<char>, start: int, i: int)
    requires
        0 <= start <= i <= s.len(),
    ensures
        first_comma(s, i) == first_comma(s.subrange(start, s.len() as int), i - start) + start,
    decreases s.len() - i,
{
    let t = s.subrange(start, s.len() as int);
    if i < s.len() {
        assert(t[i - start] == s[i]);
        if s[i] != ',' {
            lemma_first_comma_shift(s, start, i + 1);
        }
    }
}

/// The pieces of `s` from `start` on are the pieces of the rest of `s`.
pub proof fn lemma_fields_from_shift(s: Seq<char>, start: int)
    requires
        0 <= start <= s.len(),
    ensures
        fields_from(s, start) == fields(s.subrange(start, s.len() as int)),
    decreases s.len() - start,
{
    let t = s.subrange(start, s.len() as int);
    lemma_first_comma_shift(s, start, start);
    lemma_first_comma(s, start);
    let k = first_comma(s, start);
    lemma_first_comma(t, 0);
    if k < s.len() {
        lemma_fields_from_shift(s, k + 1);
        lemma_fields_from_shift(t, k + 1 - start);
        assert(t.subrange(k + 1 - start, t.len() as int) =~= s.subrange(k + 1, s.len() as int));
        assert(t.subrange(0, k - start) =~= s.subrange(start, k));
    } else {
        assert(t.subrange(0, t.len() as int) =~= t);
    }
}

/// A comma-free string is a single piece.
pub proof fn lemma_fields_single(a: Seq<char>)
    requires
        comma_free(a),
    ensures
        fields(a) == seq![a],
{
    lemma_first_comma(a, 0);
    if first_comma(a, 0) < a.len() {
        assert(a[first_comma(a, 0)] != ',');
    }
    assert(a.subrange(0, a.len() as int) =~= a);
}

/// The pieces of `a,b` for a comma-free `a` are `a` followed by the pieces of `b`.
pub proof fn lemma_fields_comma(a: Seq<char>, b: Seq<char>)
    requires
        comma_free(a),
    ensures
        fields(a + seq![','] + b) == seq![a] + fields(b),
{
    let s = a + seq![','] + b;
    lemma_first_comma(s, 0);
    let k = first_comma(s, 0);
    assert(s[a.len() as int] == ',');
    if k < a.len() {
        assert(s[k] == a[k]);
    }
    assert(k == a.len());
    lemma_fields_from_shift(s, k + 1);
    assert(s.subrange(k + 1, s.len() as int) =~= b);
    assert(s.subrange(0, k) =~= a);
}

/// Trimming leaves alone a string that neither starts nor ends with white space.
pub proof fn lemma_trim_fixed(s: Seq<char>)
    requires
        s.len() > 0 ==> !is_white_space(s[0]) && !is_white_space(s.last()),
    ensures
        trim(s) == s,
{
}

proof fn lemma_decimal_digits(n: nat)
    ensures
        decimal(n).len() >= 1,
        forall|i: int| 0 <= i < decimal(n).len() ==> is_digit(#[trigger] decimal(n)[i]),
        digits_value(decimal(n)) == n,
    decreases n,
{
    assert(((48 + n % 10) as char) as u32 == 48 + n % 10);
    if n >= 10 {
        lemma_decimal_digits(n / 10);
        let d = decimal(n);
        assert(d.drop_last() =~= decimal(n / 10));
        assert(d.last() == ((48 + n % 10) as char));
        assert(digits_value(d) == digits_value(decimal(n / 10)) * 10 + n % 10);
        assert forall|i: int| 0 <= i < d.len() implies is_digit(#[trigger] d[i]) by {
            if i < d.len() - 1 {
                assert(d[i] == decimal(n / 10)[i]);
            }
        }
    } else {
        let d = decimal(n);
        assert(d.drop_last() =~= Seq::<char>::empty());
        assert(n % 10 == n);
        assert(digits_value(d) == digits_value(Seq::<char>::empty()) * 10 + n % 10);
    }
}

/// The decimal representation of a number is comma-free, free of white space at both
/// ends, and reads back as the number.
pub proof fn lemma_decimal_reads_back(n: u32)
    ensures
        comma_free(decimal(n as nat)),
        trim(decimal(n as nat)) == decimal(n as nat),
        parse_u32(decimal(n as nat)) == Some(n),
{
    let d = decimal(n as nat);
    lemma_decimal_digits(n as nat);
    assert(is_digit(d[0]) && is_digit(d.last()));
    assert forall|i: int| 0 <= i < d.len() implies d[i] != ',' by {
        assert(is_digit(d[i]));
    }
    lemma_trim_fixed(d);
}

/// The pieces joined with commas.
pub open spec fn join_commas(pieces: Seq<Seq<char>>) -> Seq<char>
    decreases pieces.len(),
{
    if pieces.len() == 0 {
        Seq::empty()
    } else if pieces.len() == 1 {
        pieces[0]
    } else {
        pieces[0] + seq![','] + join_commas(pieces.drop_first())
    }
}

/// Splitting comma-free pieces joined with commas gives the pieces back.
pub proof fn lemma_fields_of_join(pieces: Seq<Seq<char>>)
    requires
        pieces.len() >= 1,
        forall|i: int| 0 <= i < pieces.len() ==> comma_free(#[trigger] pieces[i]),
    ensures
        fields(join_commas(pieces)) == pieces,
    decreases pieces.len(),
{
    if pieces.len() == 1 {
        lemma_fields_single(pieces[0]);
        assert(seq![pieces[0]] =~= pieces);
    } else {
        let rest = pieces.drop_first();
        assert forall|i: int| 0 <= i < rest.len() implies comma_free(#[trigger] rest[i]) by {
            assert(rest[i] == pieces[i + 1]);
        }
        lemma_fields_of_join(rest);
        lemma_fields_comma(pieces[0], join_commas(rest));
        assert(seq![pieces[0]] + rest =~= pieces);
    }
}

} // verus!
