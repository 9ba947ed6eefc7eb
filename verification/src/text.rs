//! Verified text utilities: splitting, trimming, searching, and decimal
//! parsing and formatting over `Seq<char>` models.

use vstd::prelude::*;

verus! {

// ---------------------------------------------------------------------------
// Splitting on a separator character
// ---------------------------------------------------------------------------

/// The separated pieces of `s`, split at every occurrence of `sep`.
/// Always has at least one element; `n` separators give `n + 1` pieces.
pub open spec fn split_chars(s: Seq<char>, sep: char) -> Seq<Seq<char>>
    decreases s.len(),
{
    if s.len() == 0 {
        seq![Seq::<char>::empty()]
    } else if s[0] == sep {
        seq![Seq::<char>::empty()] + split_chars(s.drop_first(), sep)
    } else {
        let rest = split_chars(s.drop_first(), sep);
        seq![seq![s[0]] + rest[0]] + rest.drop_first()
    }
}

pub proof fn lemma_split_chars_len(s: Seq<char>, sep: char)
    ensures
        split_chars(s, sep).len() >= 1,
    decreases s.len(),
{
    if s.len() != 0 {
        lemma_split_chars_len(s.drop_first(), sep);
    }
}

pub proof fn lemma_split_chars_no_sep(s: Seq<char>, sep: char)
    requires
        forall|i: int| 0 <= i < s.len() ==> s[i] != sep,
    ensures
        split_chars(s, sep) =~~= seq![s],
    decreases s.len(),
{
    if s.len() == 0 {
        assert(split_chars(s, sep) =~~= seq![s]);
    } else {
        lemma_split_chars_no_sep(s.drop_first(), sep);
        lemma_split_chars_len(s.drop_first(), sep);
        assert(seq![s[0]] + s.drop_first() =~= s);
        assert(split_chars(s, sep) =~~= seq![s]);
    }
}

pub proof fn lemma_split_chars_append(a: Seq<char>, b: Seq<char>, sep: char)
    requires
        forall|i: int| 0 <= i < a.len() ==> a[i] != sep,
    ensures
        split_chars(a + seq![sep] + b, sep) =~~= seq![a] + split_chars(b, sep),
    decreases a.len(),
{
    let s = a + seq![sep] + b;
    if a.len() == 0 {
        assert(s =~= seq![sep] + b);
        assert(s[0] == sep);
        assert(s.drop_first() =~= b);
        assert(split_chars(s, sep) =~~= seq![a] + split_chars(b, sep));
    } else {
        lemma_split_chars_append(a.drop_first(), b, sep);
        lemma_split_chars_len(a.drop_first() + seq![sep] + b, sep);
        assert(s[0] == a[0]);
        assert(s.drop_first() =~= a.drop_first() + seq![sep] + b);
        let rest = split_chars(s.drop_first(), sep);
        assert(rest =~~= seq![a.drop_first()] + split_chars(b, sep));
        assert(rest[0] == a.drop_first());
        assert(seq![s[0]] + rest[0] =~= a);
        assert(rest.drop_first() =~~= split_chars(b, sep));
        assert(split_chars(s, sep) =~~= seq![a] + split_chars(b, sep));
    }
}

pub proof fn lemma_deep_view_push<T: DeepView>(v: Vec<T>, w: Vec<T>, x: T)
    requires
        w@ == v@.push(x),
    ensures
        w.deep_view() =~~= v.deep_view().push(x.deep_view()),
{
}

/// Splits `s` at every occurrence of `sep`, keeping empty pieces.
pub fn split_str(s: &str, sep: char) -> (r: Vec<String>)
    ensures
        r.deep_view() =~~= split_chars(s@, sep),
{
    let len = s.unicode_len();
    let mut out: Vec<String> = Vec::new();
    let mut start: usize = 0;
    let mut i: usize = 0;
    proof {
        assert(s@.subrange(0, len as int) =~= s@);
    }
    while i < len
        invariant
            len == s@.len(),
            start <= i <= len,
            forall|k: int| start <= k < i ==> s@[k] != sep,
            out.deep_view() + split_chars(s@.subrange(start as int, len as int), sep)
                =~~= split_chars(s@, sep),
        decreases len - i,
    {
        let c = s.get_char(i);
        if c == sep {
            let ghost prev = out;
            let tok = s.substring_char(start, i).to_owned();
            out.push(tok);
            proof {
                let a = s@.subrange(start as int, i as int);
                let b = s@.subrange((i + 1) as int, len as int);
                assert(s@.subrange(start as int, len as int) =~= a + seq![sep] + b);
                lemma_split_chars_append(a, b, sep);
                lemma_deep_view_push(prev, out, tok);
                assert(out.deep_view() + split_chars(b, sep) =~~= split_chars(s@, sep));
            }
            start = i + 1;
        }
        i += 1;
    }
    let ghost prev = out;
    let tok = s.substring_char(start, len).to_owned();
    out.push(tok);
    proof {
        lemma_split_chars_no_sep(s@.subrange(start as int, len as int), sep);
        lemma_deep_view_push(prev, out, tok);
        assert(out.deep_view() =~~= split_chars(s@, sep));
    }
    out
}

// ---------------------------------------------------------------------------
// Lines of a dump or config blob
// ---------------------------------------------------------------------------

/// The lines of `s`, split on `\n`; a trailing newline does not produce a
/// final empty line, and empty text has no lines.
pub open spec fn lines_of(s: Seq<char>) -> Seq<Seq<char>> {
    let parts = split_chars(s, '\n');
    if parts.last().len() == 0 {
        parts.drop_last()
    } else {
        parts
    }
}

pub fn split_lines(s: &str) -> (r: Vec<String>)
    ensures
        r.deep_view() =~~= lines_of(s@),
{
    let mut parts = split_str(s, '\n');
    proof {
        lemma_split_chars_len(s@, '\n');
    }
    let n = parts.len();
    if parts[n - 1].as_str().is_empty() {
        let ghost prev = parts;
        parts.pop();
        proof {
            assert(parts.deep_view() =~~= prev.deep_view().drop_last());
        }
    }
    parts
}

// ---------------------------------------------------------------------------
// Comparison and search
// ---------------------------------------------------------------------------

/// Character-wise equality of two string slices.
pub fn str_eq(a: &str, b: &str) -> (r: bool)
    ensures
        r == (a@ == b@),
{
    let sa = String::from_str(a);
    let sb = String::from_str(b);
    sa == sb
}

/// The first index at or after `i` where `c` occurs, or `s.len()` if none.
pub open spec fn find_at(s: Seq<char>, c: char, i: int) -> int
    decreases s.len() - i,
{
    if i < 0 || i >= s.len() {
        s.len() as int
    } else if s[i] == c {
        i
    } else {
        find_at(s, c, i + 1)
    }
}

pub fn find_char(s: &str, c: char) -> (r: usize)
    ensures
        r == find_at(s@, c, 0),
        r <= s@.len(),
{
    let len = s.unicode_len();
    let mut i: usize = 0;
    while i < len
        invariant
            len == s@.len(),
            i <= len,
            find_at(s@, c, 0) == find_at(s@, c, i as int),
        decreases len - i,
    {
        if s.get_char(i) == c {
            return i;
        }
        i += 1;
    }
    len
}

/// The last index at or before `i` where `c` occurs, or `-1` if none.
pub open spec fn rfind_at(s: Seq<char>, c: char, i: int) -> int
    decreases i + 1,
{
    if i < 0 || i >= s.len() {
        -1
    } else if s[i] == c {
        i
    } else {
        rfind_at(s, c, i - 1)
    }
}

pub fn rfind_char(s: &str, c: char) -> (r: Option<usize>)
    ensures
        match r {
            Some(k) => k == rfind_at(s@, c, s@.len() - 1) && k < s@.len(),
            None => rfind_at(s@, c, s@.len() - 1) == -1,
        },
{
    let len = s.unicode_len();
    let mut b: usize = len;
    while b > 0
        invariant
            len == s@.len(),
            b <= len,
            rfind_at(s@, c, len as int - 1) == rfind_at(s@, c, b as int - 1),
        decreases b,
    {
        if s.get_char(b - 1) == c {
            return Some(b - 1);
        }
        b -= 1;
    }
    None
}

// ---------------------------------------------------------------------------
// Trimming
// ---------------------------------------------------------------------------

pub open spec fn is_blank_char(c: char) -> bool {
    c == ' ' || c == '\t' || c == '\r'
}

/// The first index at or after `i` holding a non-blank character, or
/// `s.len()` if all are blank.
pub open spec fn first_mark(s: Seq<char>, i: int) -> int
    decreases s.len() - i,
{
    if i < 0 || i >= s.len() {
        s.len() as int
    } else if !is_blank_char(s[i]) {
        i
    } else {
        first_mark(s, i + 1)
    }
}

/// The last index at or before `i` holding a non-blank character, or `-1`.
pub open spec fn last_mark(s: Seq<char>, i: int) -> int
    decreases i + 1,
{
    if i < 0 || i >= s.len() {
        -1
    } else if !is_blank_char(s[i]) {
        i
    } else {
        last_mark(s, i - 1)
    }
}

/// `s` with leading and trailing blanks (spaces, tabs, carriage returns)
/// removed.
pub open spec fn trim_view(s: Seq<char>) -> Seq<char> {
    let a = first_mark(s, 0);
    let b = last_mark(s, s.len() - 1);
    if a <= b {
        s.subrange(a, b + 1)
    } else {
        Seq::empty()
    }
}

fn is_blank(c: char) -> (r: bool)
    ensures
        r == is_blank_char(c),
{
    c == ' ' || c == '\t' || c == '\r'
}

pub fn trim_str(s: &str) -> (r: String)
    ensures
        r@ == trim_view(s@),
{
    let len = s.unicode_len();
    let mut a: usize = 0;
    loop
        invariant
            len == s@.len(),
            a <= len,
            first_mark(s@, 0) == first_mark(s@, a as int),
        ensures
            a <= len == s@.len(),
            first_mark(s@, 0) == a as int,
        decreases len - a,
    {
        if a >= len {
            break;
        }
        if !is_blank(s.get_char(a)) {
            break;
        }
        a += 1;
    }
    let mut b: usize = len;
    loop
        invariant
            len == s@.len(),
            b <= len,
            last_mark(s@, len as int - 1) == last_mark(s@, b as int - 1),
        ensures
            b <= len,
            last_mark(s@, len as int - 1) == b as int - 1,
        decreases b,
    {
        if b == 0 {
            break;
        }
        if !is_blank(s.get_char(b - 1)) {
            break;
        }
        b -= 1;
    }
    if a < b {
        s.substring_char(a, b).to_owned()
    } else {
        proof {
            assert(trim_view(s@) =~= Seq::<char>::empty());
        }
        String::new()
    }
}

// ---------------------------------------------------------------------------
// Decimal parsing
// ---------------------------------------------------------------------------

pub open spec fn is_digit_char(c: char) -> bool {
    48 <= c as u32 <= 57
}

pub open spec fn digit_val(c: char) -> nat {
    if is_digit_char(c) {
        (c as u32 - 48) as nat
    } else {
        0
    }
}

/// Whether `s` is a non-empty run of ASCII decimal digits.
pub open spec fn is_dec_string(s: Seq<char>) -> bool {
    s.len() > 0 && forall|i: int| 0 <= i < s.len() ==> is_digit_char(s[i])
}

/// The value of `s` read as a decimal numeral.
pub open spec fn dec_val(s: Seq<char>) -> nat
    decreases s.len(),
{
    if s.len() == 0 {
        0
    } else {
        dec_val(s.drop_last()) * 10 + digit_val(s.last())
    }
}

proof fn lemma_dec_val_prefix_le(s: Seq<char>, k: int)
    requires
        0 <= k <= s.len(),
    ensures
        dec_val(s.subrange(0, k)) <= dec_val(s),
    decreases s.len() - k,
{
    if k == s.len() {
        assert(s.subrange(0, k) =~= s);
    } else {
        lemma_dec_val_prefix_le(s, k + 1);
        let p = s.subrange(0, k + 1);
        assert(p.drop_last() =~= s.subrange(0, k));
        assert(p.last() == s[k]);
        assert(dec_val(s.subrange(0, k)) * 10 >= dec_val(s.subrange(0, k)));
    }
}

/// Parses a non-empty run of decimal digits as a `u64`; `None` on any other
/// text or on overflow.
pub fn parse_u64_str(s: &str) -> (r: Option<u64>)
    ensures
        match r {
            Some(v) => is_dec_string(s@) && dec_val(s@) == v as nat,
            None => !is_dec_string(s@) || dec_val(s@) > u64::MAX,
        },
{
    let len = s.unicode_len();
    if len == 0 {
        return None;
    }
    let mut acc: u64 = 0;
    let mut i: usize = 0;
    while i < len
        invariant
            len == s@.len(),
            i <= len,
            forall|k: int| 0 <= k < i ==> is_digit_char(s@[k]),
            acc as nat == dec_val(s@.subrange(0, i as int)),
        decreases len - i,
    {
        let c = s.get_char(i);
        let u = c as u32;
        if u < 48 || u > 57 {
            return None;
        }
        let d = (u - 48) as u64;
        proof {
            let p = s@.subrange(0, (i + 1) as int);
            assert(p.drop_last() =~= s@.subrange(0, i as int));
            assert(p.last() == s@[i as int]);
        }
        if acc > (u64::MAX - d) / 10 {
            proof {
                assert(acc as nat * 10 + d as nat > u64::MAX) by (nonlinear_arith)
                    requires
                        acc > (u64::MAX - d) / 10,
                        d <= 9,
                {
                }
                lemma_dec_val_prefix_le(s@, (i + 1) as int);
            }
            return None;
        }
        proof {
            assert(acc * 10 + d <= u64::MAX) by (nonlinear_arith)
                requires
                    acc <= (u64::MAX - d) / 10,
                    d <= 9,
            {
            }
        }
        acc = acc * 10 + d;
        i += 1;
    }
    proof {
        assert(s@.subrange(0, len as int) =~= s@);
    }
    Some(acc)
}

// ---------------------------------------------------------------------------
// Decimal formatting
// ---------------------------------------------------------------------------

pub open spec fn digit_char(n: nat) -> char {
    if n == 0 {
        '0'
    } else if n == 1 {
        '1'
    } else if n == 2 {
        '2'
    } else if n == 3 {
        '3'
    } else if n == 4 {
        '4'
    } else if n == 5 {
        '5'
    } else if n == 6 {
        '6'
    } else if n == 7 {
        '7'
    } else if n == 8 {
        '8'
    } else {
        '9'
    }
}

/// The decimal numeral of `n`, most significant digit first, no leading
/// zeros (a single `'0'` for zero).
pub open spec fn dec_str(n: nat) -> Seq<char>
    decreases n,
{
    if n < 10 {
        seq![digit_char(n)]
    } else {
        dec_str(n / 10) + seq![digit_char(n % 10)]
    }
}

/// Relies on `String::push`: appends exactly the given character.
#[verifier::external_body]
pub fn push_char(out: &mut String, c: char)
    ensures
        final(out)@ == old(out)@ + seq![c],
{
    out.push(c);
}

fn digit_of(n: u64) -> (c: char)
    requires
        n < 10,
    ensures
        c == digit_char(n as nat),
{
    if n == 0 {
        '0'
    } else if n == 1 {
        '1'
    } else if n == 2 {
        '2'
    } else if n == 3 {
        '3'
    } else if n == 4 {
        '4'
    } else if n == 5 {
        '5'
    } else if n == 6 {
        '6'
    } else if n == 7 {
        '7'
    } else if n == 8 {
        '8'
    } else {
        '9'
    }
}

/// Appends the decimal numeral of `n` to `out`.
pub fn push_u64(out: &mut String, n: u64)
    ensures
        final(out)@ == old(out)@ + dec_str(n as nat),
    decreases n,
{
    if n < 10 {
        push_char(out, digit_of(n));
    } else {
        push_u64(out, n / 10);
        push_char(out, digit_of(n % 10));
        proof {
            assert(old(out)@ + dec_str((n / 10) as nat) + seq![digit_char((n % 10) as nat)]
                =~= old(out)@ + dec_str(n as nat));
        }
    }
}

} // verus!
