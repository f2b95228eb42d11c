//! Character-level text support: conversions between `str`/`String` and
//! character vectors, lexicographic order, equality and decimal rendering.
use vstd::prelude::*;

verus! {

/// Appends one character to a string; calls `String::push`, which the
/// standard library documents as appending the character at the end.
#[verifier::external_body]
pub(crate) fn push_char(s: &mut String, c: char)
    ensures
        final(s)@ == old(s)@.push(c),
{
    s.push(c);
}

/// The characters of `s`, in order.
pub fn to_chars(s: &str) -> (res: Vec<char>)
    ensures
        res@ == s@,
{
    let n = s.unicode_len();
    let mut out: Vec<char> = Vec::new();
    let mut i: usize = 0;
    while i < n
        invariant
            n == s@.len(),
            i <= n,
            out@ == s@.subrange(0, i as int),
        decreases n - i,
    {
        let c = s.get_char(i);
        out.push(c);
        i += 1;
    }
    assert(out@ =~= s@);
    out
}

/// The string made of the characters of `v`, in order.
pub fn from_chars(v: &Vec<char>) -> (res: String)
    ensures
        res@ == v@,
{
    let mut out = String::new();
    let mut i: usize = 0;
    while i < v.len()
        invariant
            i <= v@.len(),
            out@ == v@.subrange(0, i as int),
        decreases v@.len() - i,
    {
        push_char(&mut out, v[i]);
        assert(v@.subrange(0, i + 1) =~= v@.subrange(0, i as int).push(v@[i as int]));
        i += 1;
    }
    assert(out@ =~= v@);
    out
}

/// Copies a string slice into an owned string.
pub fn owned(s: &str) -> (res: String)
    ensures
        res@ == s@,
{
    s.to_owned()
}

/// Whether two texts hold the same characters.
pub fn text_eq(a: &str, b: &str) -> (r: bool)
    ensures
        r == (a@ == b@),
{
    let x = a.to_owned();
    let y = b.to_owned();
    x == y
}

/// Appends the characters of `v` to `out`.
pub fn append_chars(out: &mut Vec<char>, v: &Vec<char>)
    ensures
        final(out)@ == old(out)@ + v@,
{
    let mut i: usize = 0;
    while i < v.len()
        invariant
            i <= v@.len(),
            out@ == old(out)@ + v@.subrange(0, i as int),
        decreases v@.len() - i,
    {
        out.push(v[i]);
        assert(old(out)@ + v@.subrange(0, i + 1) =~= old(out)@ + v@.subrange(0, i as int) + seq![
            v@[i as int],
        ]);
        i += 1;
    }
    assert(v@.subrange(0, v@.len() as int) =~= v@);
}

/// Appends the characters of `s` to `out`.
pub fn append_str(out: &mut Vec<char>, s: &str)
    ensures
        final(out)@ == old(out)@ + s@,
{
    let v = to_chars(s);
    append_chars(out, &v);
}

/// Lexicographic order on character sequences, comparing characters by
/// their scalar values; a proper prefix comes first.  For Rust strings this
/// is the order of `Ord for str`, since UTF-8 preserves scalar-value order.
pub open spec fn lex_le(a: Seq<char>, b: Seq<char>) -> bool
    decreases a.len(),
{
    if a.len() == 0 {
        true
    } else if b.len() == 0 {
        false
    } else if a[0] != b[0] {
        (a[0] as u32) < (b[0] as u32)
    } else {
        lex_le(a.drop_first(), b.drop_first())
    }
}

/// Strict lexicographic order.
pub open spec fn lex_lt(a: Seq<char>, b: Seq<char>) -> bool {
    lex_le(a, b) && a != b
}

proof fn lemma_char_u32_injective(x: char, y: char)
    requires
        x != y,
    ensures
        x as u32 != y as u32,
{
}

pub proof fn lemma_lex_le_refl(a: Seq<char>)
    ensures
        lex_le(a, a),
    decreases a.len(),
{
    if a.len() > 0 {
        lemma_lex_le_refl(a.drop_first());
    }
}

pub proof fn lemma_lex_le_antisym(a: Seq<char>, b: Seq<char>)
    requires
        lex_le(a, b),
        lex_le(b, a),
    ensures
        a == b,
    decreases a.len(),
{
    if a.len() == 0 {
        assert(a =~= b);
    } else {
        assert(b.len() > 0);
        assert(a[0] as u32 != b[0] as u32 ==> a[0] != b[0]);
        if a[0] == b[0] {
            lemma_lex_le_antisym(a.drop_first(), b.drop_first());
            assert(a.drop_first().len() == b.drop_first().len());
            assert(a.len() == b.len());
            assert forall|i: int| 0 <= i < a.len() implies a[i] == b[i] by {
                if i > 0 {
                    assert(a[i] == a.drop_first()[i - 1]);
                    assert(b[i] == b.drop_first()[i - 1]);
                }
            }
            assert(a =~= b);
        }
    }
}

pub proof fn lemma_lex_le_trans(a: Seq<char>, b: Seq<char>, c: Seq<char>)
    requires
        lex_le(a, b),
        lex_le(b, c),
    ensures
        lex_le(a, c),
    decreases a.len(),
{
    if a.len() > 0 && a[0] == b[0] && b[0] == c[0] {
        lemma_lex_le_trans(a.drop_first(), b.drop_first(), c.drop_first());
    }
}

pub proof fn lemma_lex_le_total(a: Seq<char>, b: Seq<char>)
    ensures
        lex_le(a, b) || lex_le(b, a),
    decreases a.len(),
{
    if a.len() > 0 && b.len() > 0 {
        if a[0] == b[0] {
            lemma_lex_le_total(a.drop_first(), b.drop_first());
        } else {
            lemma_char_u32_injective(a[0], b[0]);
        }
    }
}

/// Whether `a` comes no later than `b` in lexicographic order.
pub fn chars_le(a: &Vec<char>, b: &Vec<char>) -> (r: bool)
    ensures
        r == lex_le(a@, b@),
{
    let mut i: usize = 0;
    assert(a@.skip(0) =~= a@);
    assert(b@.skip(0) =~= b@);
    while i < a.len() && i < b.len()
        invariant
            i <= a@.len(),
            i <= b@.len(),
            lex_le(a@, b@) == lex_le(a@.skip(i as int), b@.skip(i as int)),
        decreases a@.len() - i,
    {
        assert(a@.skip(i as int)[0] == a@[i as int]);
        assert(b@.skip(i as int)[0] == b@[i as int]);
        if a[i] != b[i] {
            return (a[i] as u32) < (b[i] as u32);
        }
        assert(a@.skip(i as int).drop_first() =~= a@.skip(i + 1));
        assert(b@.skip(i as int).drop_first() =~= b@.skip(i + 1));
        i += 1;
    }
    i == a.len()
}

/// Whether `a` comes no later than `b` in lexicographic order.
pub fn text_le(a: &str, b: &str) -> (r: bool)
    ensures
        r == lex_le(a@, b@),
{
    let x = to_chars(a);
    let y = to_chars(b);
    chars_le(&x, &y)
}

/// The decimal digit character for `d < 10`.
pub open spec fn digit_char(d: nat) -> char {
    ((d + 48) as u32) as char
}

/// The decimal rendering of `n`, without sign or leading zeros.
pub open spec fn decimal(n: nat) -> Seq<char>
    decreases n,
{
    if n < 10 {
        seq![digit_char(n)]
    } else {
        decimal(n / 10).push(digit_char(n % 10))
    }
}

/// The decimal rendering of `n`, left-padded with `'0'` to `width` characters.
pub open spec fn padded_decimal(n: nat, width: nat) -> Seq<char> {
    let d = decimal(n);
    if d.len() >= width {
        d
    } else {
        Seq::new((width - d.len()) as nat, |i: int| '0') + d
    }
}

fn digit(d: u8) -> (c: char)
    requires
        d < 10,
    ensures
        c == digit_char(d as nat),
{
    (d + 48) as char
}

/// Appends the decimal rendering of `n` to `out`.
pub fn push_decimal(out: &mut Vec<char>, n: u128)
    ensures
        final(out)@ == old(out)@ + decimal(n as nat),
    decreases n,
{
    if n >= 10 {
        push_decimal(out, n / 10);
    }
    let d = (n % 10) as u8;
    out.push(digit(d));
    proof {
        if n >= 10 {
            assert(old(out)@ + decimal(n as nat) =~= old(out)@ + decimal((n / 10) as nat) + seq![
                digit_char((n % 10) as nat),
            ]);
        } else {
            assert(n % 10 == n);
        }
    }
}

/// Appends the decimal rendering of `n`, left-padded with zeros to `width`.
pub fn push_padded_decimal(out: &mut Vec<char>, n: u128, width: usize)
    ensures
        final(out)@ == old(out)@ + padded_decimal(n as nat, width as nat),
{
    let mut digits: Vec<char> = Vec::new();
    push_decimal(&mut digits, n);
    assert(digits@ =~= decimal(n as nat));
    let len = digits.len();
    if len < width {
        let mut k: usize = 0;
        while k < width - len
            invariant
                k <= width - len,
                len < width,
                out@ == old(out)@ + Seq::new(k as nat, |i: int| '0'),
            decreases width - len - k,
        {
            out.push('0');
            assert(Seq::new((k + 1) as nat, |i: int| '0') =~= Seq::new(k as nat, |i: int| '0').push(
                '0',
            ));
            k += 1;
        }
        append_chars(out, &digits);
        assert(old(out)@ + padded_decimal(n as nat, width as nat) =~= old(out)@ + Seq::new(
            (width - len) as nat,
            |i: int| '0',
        ) + digits@);
    } else {
        append_chars(out, &digits);
    }
}

/// ASCII letters and digits.
pub open spec fn is_ascii_alnum(c: char) -> bool {
    (48 <= c as u32 <= 57) || (65 <= c as u32 <= 90) || (97 <= c as u32 <= 122)
}

/// ASCII upper-case letters mapped to lower case; every other character unchanged.
pub open spec fn ascii_lower(c: char) -> char {
    if 65 <= c as u32 <= 90 {
        ((c as u32) + 32) as char
    } else {
        c
    }
}

pub fn is_ascii_alnum_char(c: char) -> (r: bool)
    ensures
        r == is_ascii_alnum(c),
{
    ('0' <= c && c <= '9') || ('A' <= c && c <= 'Z') || ('a' <= c && c <= 'z')
}

pub fn ascii_lower_char(c: char) -> (r: char)
    ensures
        r == ascii_lower(c),
{
    if 'A' <= c && c <= 'Z' {
        ((c as u8) + 32) as char
    } else {
        c
    }
}

/// Unicode white space, as `char::is_whitespace` decides it.
pub open spec fn is_ws(c: char) -> bool {
    let u = c as u32;
    (9 <= u <= 13) || u == 32 || u == 0x85 || u == 0xa0 || u == 0x1680 || (0x2000 <= u <= 0x200a)
        || u == 0x2028 || u == 0x2029 || u == 0x202f || u == 0x205f || u == 0x3000
}

pub fn is_ws_char(c: char) -> (r: bool)
    ensures
        r == is_ws(c),
{
    let u = c as u32;
    (9 <= u && u <= 13) || u == 32 || u == 0x85 || u == 0xa0 || u == 0x1680 || (0x2000 <= u && u
        <= 0x200a) || u == 0x2028 || u == 0x2029 || u == 0x202f || u == 0x205f || u == 0x3000
}

/// Which characters a strip removes.
pub enum Strip {
    Dashes,
    Whitespace,
}

pub open spec fn strippable(k: Strip, c: char) -> bool {
    match k {
        Strip::Dashes => c == '-',
        Strip::Whitespace => is_ws(c),
    }
}

fn is_strippable(k: &Strip, c: char) -> (r: bool)
    ensures
        r == strippable(*k, c),
{
    match k {
        Strip::Dashes => c == '-',
        Strip::Whitespace => is_ws_char(c),
    }
}

/// `s` without its leading strippable characters.
pub open spec fn strip_start(s: Seq<char>, k: Strip) -> Seq<char>
    decreases s.len(),
{
    if s.len() > 0 && strippable(k, s[0]) {
        strip_start(s.drop_first(), k)
    } else {
        s
    }
}

/// `s` without its trailing strippable characters.
pub open spec fn strip_end(s: Seq<char>, k: Strip) -> Seq<char>
    decreases s.len(),
{
    if s.len() > 0 && strippable(k, s.last()) {
        strip_end(s.drop_last(), k)
    } else {
        s
    }
}

/// `s` without its leading and trailing strippable characters.
pub open spec fn strip(s: Seq<char>, k: Strip) -> Seq<char> {
    strip_end(strip_start(s, k), k)
}

/// Skipping a run of strippable characters that ends at a non-strippable one
/// (or at the end) is the same as `strip_start`.
pub proof fn lemma_strip_start_at(s: Seq<char>, k: Strip, i: int)
    requires
        0 <= i <= s.len(),
        forall|j: int| 0 <= j < i ==> strippable(k, #[trigger] s[j]),
        i == s.len() || !strippable(k, s[i]),
    ensures
        strip_start(s, k) == s.skip(i),
    decreases i,
{
    if i == 0 {
        assert(s.skip(0) =~= s);
    } else {
        assert forall|j: int| 0 <= j < i - 1 implies strippable(k, #[trigger] s.drop_first()[j]) by {
            assert(s.drop_first()[j] == s[j + 1]);
        }
        if i < s.len() {
            assert(s.drop_first()[i - 1] == s[i]);
        }
        lemma_strip_start_at(s.drop_first(), k, i - 1);
        assert(s.drop_first().skip(i - 1) =~= s.skip(i));
    }
}

/// Dropping a run of strippable characters that starts after a
/// non-strippable one (or at the start) is the same as `strip_end`.
pub proof fn lemma_strip_end_at(s: Seq<char>, k: Strip, i: int)
    requires
        0 <= i <= s.len(),
        forall|j: int| i <= j < s.len() ==> strippable(k, #[trigger] s[j]),
        i == 0 || !strippable(k, s[i - 1]),
    ensures
        strip_end(s, k) == s.take(i),
    decreases s.len() - i,
{
    if i == s.len() {
        assert(s.take(i) =~= s);
    } else {
        assert forall|j: int| i <= j < s.len() - 1 implies strippable(
            k,
            #[trigger] s.drop_last()[j],
        ) by {
            assert(s.drop_last()[j] == s[j]);
        }
        if i > 0 {
            assert(s.drop_last()[i - 1] == s[i - 1]);
        }
        lemma_strip_end_at(s.drop_last(), k, i);
        assert(s.drop_last().take(i) =~= s.take(i));
    }
}

/// The index of the first character of `v[lo..]` that is not strippable, or
/// the length when there is none.
pub fn strip_start_index(v: &Vec<char>, lo: usize, k: &Strip) -> (i: usize)
    requires
        lo <= v@.len(),
    ensures
        lo <= i <= v@.len(),
        v@.subrange(i as int, v@.len() as int) == strip_start(
            v@.subrange(lo as int, v@.len() as int),
            *k,
        ),
{
    let mut i = lo;
    while i < v.len() && is_strippable(k, v[i])
        invariant
            lo <= i <= v@.len(),
            forall|j: int| lo <= j < i ==> strippable(*k, #[trigger] v@[j]),
        decreases v@.len() - i,
    {
        i += 1;
    }
    proof {
        let t = v@.subrange(lo as int, v@.len() as int);
        assert forall|j: int| 0 <= j < i - lo implies strippable(*k, #[trigger] t[j]) by {
            assert(t[j] == v@[lo + j]);
        }
        if i < v@.len() {
            assert(t[i - lo] == v@[i as int]);
        }
        lemma_strip_start_at(t, *k, i - lo);
        assert(t.skip(i - lo) =~= v@.subrange(i as int, v@.len() as int));
    }
    i
}

/// The end of `v[lo..hi]` once its trailing strippable characters are dropped.
pub fn strip_end_index(v: &Vec<char>, lo: usize, hi: usize, k: &Strip) -> (i: usize)
    requires
        lo <= hi <= v@.len(),
    ensures
        lo <= i <= hi,
        v@.subrange(lo as int, i as int) == strip_end(v@.subrange(lo as int, hi as int), *k),
{
    let mut i = hi;
    while i > lo && is_strippable(k, v[i - 1])
        invariant
            lo <= i <= hi,
            hi <= v@.len(),
            forall|j: int| i <= j < hi ==> strippable(*k, #[trigger] v@[j]),
        decreases i - lo,
    {
        i -= 1;
    }
    proof {
        let t = v@.subrange(lo as int, hi as int);
        assert forall|j: int| i - lo <= j < t.len() implies strippable(*k, #[trigger] t[j]) by {
            assert(t[j] == v@[lo + j]);
        }
        if i > lo {
            assert(t[i - lo - 1] == v@[i - 1]);
        }
        lemma_strip_end_at(t, *k, i - lo);
        assert(t.take(i - lo) =~= v@.subrange(lo as int, i as int));
    }
    i
}

/// The bounds of `v` once its leading and trailing strippable characters are
/// removed.
pub fn strip_bounds(v: &Vec<char>, k: &Strip) -> (r: (usize, usize))
    ensures
        r.0 <= r.1 <= v@.len(),
        v@.subrange(r.0 as int, r.1 as int) == strip(v@, *k),
{
    let lo = strip_start_index(v, 0, k);
    let hi = strip_end_index(v, lo, v.len(), k);
    assert(v@.subrange(0, v@.len() as int) =~= v@);
    (lo, hi)
}

/// The characters `v[lo..hi]` as a vector.
pub fn slice_chars(v: &Vec<char>, lo: usize, hi: usize) -> (res: Vec<char>)
    requires
        lo <= hi <= v@.len(),
    ensures
        res@ == v@.subrange(lo as int, hi as int),
{
    let mut out: Vec<char> = Vec::new();
    let mut i = lo;
    while i < hi
        invariant
            lo <= i <= hi,
            hi <= v@.len(),
            out@ == v@.subrange(lo as int, i as int),
        decreases hi - i,
    {
        out.push(v[i]);
        assert(v@.subrange(lo as int, i + 1) =~= v@.subrange(lo as int, i as int).push(v@[i as int]));
        i += 1;
    }
    out
}

/// A strip result has no strippable character at either end.
pub proof fn lemma_strip_ends(s: Seq<char>, k: Strip)
    ensures
        strip(s, k).len() > 0 ==> !strippable(k, strip(s, k)[0]) && !strippable(
            k,
            strip(s, k).last(),
        ),
        strip(s, k).len() <= s.len(),
    decreases s.len(),
{
    lemma_strip_start_shape(s, k);
    lemma_strip_end_shape(strip_start(s, k), k);
}

proof fn lemma_strip_start_shape(s: Seq<char>, k: Strip)
    ensures
        strip_start(s, k).len() > 0 ==> !strippable(k, strip_start(s, k)[0]),
        strip_start(s, k).len() <= s.len(),
        exists|i: int| 0 <= i <= s.len() && strip_start(s, k) == s.skip(i),
    decreases s.len(),
{
    if s.len() > 0 && strippable(k, s[0]) {
        lemma_strip_start_shape(s.drop_first(), k);
        let i = choose|i: int|
            0 <= i <= s.drop_first().len() && strip_start(s.drop_first(), k) == s.drop_first().skip(
                i,
            );
        assert(s.drop_first().skip(i) =~= s.skip(i + 1));
    } else {
        assert(s.skip(0) =~= s);
    }
}

proof fn lemma_strip_end_shape(s: Seq<char>, k: Strip)
    ensures
        strip_end(s, k).len() > 0 ==> !strippable(k, strip_end(s, k).last()),
        strip_end(s, k).len() <= s.len(),
        exists|i: int| 0 <= i <= s.len() && strip_end(s, k) == s.take(i),
        strip_end(s, k).len() > 0 ==> strip_end(s, k)[0] == s[0],
    decreases s.len(),
{
    if s.len() > 0 && strippable(k, s.last()) {
        lemma_strip_end_shape(s.drop_last(), k);
        let i = choose|i: int|
            0 <= i <= s.drop_last().len() && strip_end(s.drop_last(), k) == s.drop_last().take(i);
        assert(s.drop_last().take(i) =~= s.take(i));
    } else {
        assert(s.take(s.len() as int) =~= s);
    }
}

/// Stripping a sequence whose ends are not strippable changes nothing.
pub proof fn lemma_strip_noop(s: Seq<char>, k: Strip)
    requires
        s.len() > 0 ==> !strippable(k, s[0]) && !strippable(k, s.last()),
    ensures
        strip(s, k) == s,
{
}

/// A strip result is a contiguous part of the stripped sequence.
pub proof fn lemma_strip_subrange(s: Seq<char>, k: Strip)
    ensures
        exists|lo: int, hi: int| 0 <= lo <= hi <= s.len() && strip(s, k) == s.subrange(lo, hi),
{
    lemma_strip_start_shape(s, k);
    let lo = choose|i: int| 0 <= i <= s.len() && strip_start(s, k) == s.skip(i);
    let t = s.skip(lo);
    lemma_strip_end_shape(t, k);
    let h = choose|i: int| 0 <= i <= t.len() && strip_end(t, k) == t.take(i);
    assert(t.take(h) =~= s.subrange(lo, lo + h));
}

/// `pat` occurs in `s` at index `i`.
pub open spec fn occurs_at(s: Seq<char>, pat: Seq<char>, i: int) -> bool {
    0 <= i && i + pat.len() <= s.len() && s.subrange(i, i + pat.len()) == pat
}

/// The first index at or after `i` where `pat` occurs in `s`.
pub open spec fn find_from(s: Seq<char>, pat: Seq<char>, i: int) -> Option<int>
    decreases s.len() + 1 - i,
{
    if i < 0 || i + pat.len() > s.len() {
        None
    } else if s.subrange(i, i + pat.len()) == pat {
        Some(i)
    } else {
        find_from(s, pat, i + 1)
    }
}

/// The first index where `pat` occurs in `s` (what `str::find` gives,
/// counted in characters).
pub open spec fn find(s: Seq<char>, pat: Seq<char>) -> Option<int> {
    find_from(s, pat, 0)
}

/// `s` starts with `p`.
pub open spec fn starts_with(s: Seq<char>, p: Seq<char>) -> bool {
    p.len() <= s.len() && s.subrange(0, p.len() as int) == p
}

/// What `find_from` returns: the first occurrence at or after `i`.
pub proof fn lemma_find_from(s: Seq<char>, pat: Seq<char>, i: int)
    requires
        0 <= i,
    ensures
        find_from(s, pat, i) matches Some(k) ==> i <= k && occurs_at(s, pat, k) && forall|j: int|
            i <= j < k ==> !#[trigger] occurs_at(s, pat, j),
        find_from(s, pat, i) is None ==> forall|j: int| i <= j ==> !#[trigger] occurs_at(s, pat, j),
    decreases s.len() + 1 - i,
{
    if i + pat.len() <= s.len() && s.subrange(i, i + pat.len()) != pat {
        lemma_find_from(s, pat, i + 1);
    }
}

/// The first occurrence is what `find` returns.
pub proof fn lemma_find_is_first(s: Seq<char>, pat: Seq<char>, k: int)
    requires
        occurs_at(s, pat, k),
        forall|j: int| 0 <= j < k ==> !#[trigger] occurs_at(s, pat, j),
    ensures
        find(s, pat) == Some(k),
{
    lemma_find_from(s, pat, 0);
    match find(s, pat) {
        Some(m) => {
            if m < k {
                assert(!occurs_at(s, pat, m));
            } else if m > k {
                assert(!occurs_at(s, pat, k));
            }
        },
        None => {
            assert(!occurs_at(s, pat, k));
        },
    }
}

/// There is no occurrence at all, so `find` gives nothing.
pub proof fn lemma_find_none(s: Seq<char>, pat: Seq<char>)
    requires
        forall|j: int| 0 <= j ==> !#[trigger] occurs_at(s, pat, j),
    ensures
        find(s, pat) is None,
{
    lemma_find_from(s, pat, 0);
    if let Some(m) = find(s, pat) {
        assert(occurs_at(s, pat, m));
    }
}

/// Whether `pat` occurs in `v` at index `i`.
pub fn occurs_at_exec(v: &Vec<char>, pat: &Vec<char>, i: usize) -> (r: bool)
    ensures
        r == occurs_at(v@, pat@, i as int),
{
    if pat.len() > v.len() || i > v.len() - pat.len() {
        return false;
    }
    let limit = v.len() - pat.len();
    let mut k: usize = 0;
    while k < pat.len()
        invariant
            k <= pat@.len(),
            i <= limit,
            limit + pat@.len() == v@.len(),
            v@.len() <= usize::MAX,
            forall|j: int| 0 <= j < k ==> v@[i + j] == pat@[j],
        decreases pat@.len() - k,
    {
        assert(i + k < v@.len());
        if v[i + k] != pat[k] {
            assert(v@.subrange(i as int, i + pat@.len())[k as int] != pat@[k as int]);
            return false;
        }
        k += 1;
    }
    assert(v@.subrange(i as int, i + pat@.len()) =~= pat@);
    true
}

/// The first index where `pat` occurs in `v`.
pub fn find_chars(v: &Vec<char>, pat: &Vec<char>) -> (r: Option<usize>)
    ensures
        r matches Some(k) ==> find(v@, pat@) == Some(k as int),
        r is None ==> find(v@, pat@) is None,
{
    if pat.len() > v.len() {
        proof {
            assert forall|j: int| 0 <= j implies !#[trigger] occurs_at(v@, pat@, j) by {}
            lemma_find_none(v@, pat@);
        }
        return None;
    }
    if pat.len() == 0 {
        proof {
            assert(v@.subrange(0, 0) =~= pat@);
            lemma_find_is_first(v@, pat@, 0);
        }
        return Some(0);
    }
    let limit = v.len() - pat.len();
    assert(limit < v@.len() <= usize::MAX);
    let mut i: usize = 0;
    while i < limit + 1
        invariant
            limit + pat@.len() == v@.len(),
            limit < usize::MAX,
            pat@.len() > 0,
            i <= limit + 1,
            forall|j: int| 0 <= j < i ==> !#[trigger] occurs_at(v@, pat@, j),
        decreases limit + 1 - i,
    {
        if occurs_at_exec(v, pat, i) {
            proof {
                lemma_find_is_first(v@, pat@, i as int);
            }
            return Some(i);
        }
        i += 1;
    }
    proof {
        assert forall|j: int| 0 <= j implies !#[trigger] occurs_at(v@, pat@, j) by {
            if j >= i {
                assert(j + pat@.len() > v@.len());
            }
        }
        lemma_find_none(v@, pat@);
    }
    None
}

/// Where `strip_start` cuts: everything before the cut is strippable, and
/// the character at the cut (if any) is not.
pub proof fn lemma_strip_start_cut(s: Seq<char>, k: Strip) -> (a: int)
    ensures
        0 <= a <= s.len(),
        strip_start(s, k) == s.skip(a),
        forall|j: int| 0 <= j < a ==> strippable(k, #[trigger] s[j]),
        a == s.len() || !strippable(k, s[a]),
    decreases s.len(),
{
    if s.len() > 0 && strippable(k, s[0]) {
        let a = lemma_strip_start_cut(s.drop_first(), k);
        assert(s.drop_first().skip(a) =~= s.skip(a + 1));
        assert forall|j: int| 0 <= j < a + 1 implies strippable(k, #[trigger] s[j]) by {
            if j > 0 {
                assert(s[j] == s.drop_first()[j - 1]);
            }
        }
        if a + 1 < s.len() {
            assert(s[a + 1] == s.drop_first()[a]);
        }
        a + 1
    } else {
        assert(s.skip(0) =~= s);
        0
    }
}

/// Where `strip_end` cuts: everything from the cut on is strippable, and
/// the character just before the cut (if any) is not.
pub proof fn lemma_strip_end_cut(s: Seq<char>, k: Strip) -> (h: int)
    ensures
        0 <= h <= s.len(),
        strip_end(s, k) == s.take(h),
        forall|j: int| h <= j < s.len() ==> strippable(k, #[trigger] s[j]),
        h == 0 || !strippable(k, s[h - 1]),
    decreases s.len(),
{
    if s.len() > 0 && strippable(k, s.last()) {
        let h = lemma_strip_end_cut(s.drop_last(), k);
        assert(s.drop_last().take(h) =~= s.take(h));
        assert forall|j: int| h <= j < s.len() implies strippable(k, #[trigger] s[j]) by {
            if j < s.len() - 1 {
                assert(s[j] == s.drop_last()[j]);
            }
        }
        if h > 0 {
            assert(s[h - 1] == s.drop_last()[h - 1]);
        }
        h
    } else {
        assert(s.take(s.len() as int) =~= s);
        s.len() as int
    }
}

} // verus!
