//! Verified character and string utilities: equality, substring search,
//! whitespace splitting, decimal and hexadecimal rendering, and the few
//! trusted bridges to std's string routines.

use vstd::prelude::*;

verus! {

// ---------------------------------------------------------------------------
// Trusted bridges to std
// ---------------------------------------------------------------------------

/// Relies on std's String::push: appends exactly one character at the end.
#[verifier::external_body]
pub fn push_char(s: &mut String, c: char)
    ensures
        final(s)@ == old(s)@.push(c),
{
    s.push(c);
}

/// What str::to_lowercase returns for a given character sequence; the
/// result depends on the characters alone.
pub uninterp spec fn lower_of(s: Seq<char>) -> Seq<char>;

/// Relies on str::to_lowercase: Unicode lowercasing, a function of the
/// characters alone.
#[verifier::external_body]
pub fn lowercase(s: &str) -> (r: String)
    ensures
        r@ == lower_of(s@),
{
    s.to_lowercase()
}

/// Whether char::is_alphanumeric holds of a character; a property of the
/// character alone.
pub uninterp spec fn is_unicode_alnum(c: char) -> bool;

/// Relies on char::is_alphanumeric: a Unicode property of the character
/// alone.
pub assume_specification[ char::is_alphanumeric ](c: char) -> (r: bool)
    ensures
        r == is_unicode_alnum(c),
;

// ---------------------------------------------------------------------------
// Basic conversions and comparisons
// ---------------------------------------------------------------------------

/// The characters of `s`, as a vector.
pub fn chars_vec(s: &str) -> (r: Vec<char>)
    ensures
        r@ == s@,
{
    let n = s.unicode_len();
    let mut r: Vec<char> = Vec::new();
    let mut i: usize = 0;
    while i < n
        invariant
            i <= n,
            n == s@.len(),
            r@ == s@.take(i as int),
        decreases n - i,
    {
        r.push(s.get_char(i));
        proof {
            assert(r@ =~= s@.take(i as int + 1));
        }
        i += 1;
    }
    proof {
        assert(s@.take(n as int) =~= s@);
    }
    r
}

/// A string holding exactly the characters of `v`.
pub fn from_chars(v: &Vec<char>) -> (r: String)
    ensures
        r@ == v@,
{
    let mut r = String::new();
    let mut i: usize = 0;
    while i < v.len()
        invariant
            i <= v.len(),
            r@ == v@.take(i as int),
        decreases v.len() - i,
    {
        push_char(&mut r, v[i]);
        proof {
            assert(r@ =~= v@.take(i as int + 1));
        }
        i += 1;
    }
    proof {
        assert(v@.take(v.len() as int) =~= v@);
    }
    r
}

/// Character-wise equality of two string slices.
pub fn str_eq(a: &str, b: &str) -> (r: bool)
    ensures
        r == (a@ == b@),
{
    let n = a.unicode_len();
    if n != b.unicode_len() {
        return false;
    }
    let mut i: usize = 0;
    while i < n
        invariant
            i <= n,
            n == a@.len(),
            n == b@.len(),
            forall|j: int| 0 <= j < i ==> a@[j] == b@[j],
        decreases n - i,
    {
        if a.get_char(i) != b.get_char(i) {
            return false;
        }
        i += 1;
    }
    proof {
        assert(a@ =~= b@);
    }
    true
}

// ---------------------------------------------------------------------------
// Substring search
// ---------------------------------------------------------------------------

/// `p` occurs in `t` starting at index `i`.
pub open spec fn matches_at(t: Seq<char>, p: Seq<char>, i: int) -> bool {
    0 <= i && i + p.len() <= t.len() && t.subrange(i, i + p.len() as int) == p
}

/// `p` occurs somewhere in `t` (every sequence contains the empty one).
pub open spec fn spec_contains(t: Seq<char>, p: Seq<char>) -> bool {
    exists|i: int| #[trigger] matches_at(t, p, i)
}

fn match_at(t: &Vec<char>, p: &Vec<char>, i: usize) -> (r: bool)
    requires
        i + p.len() <= t.len(),
    ensures
        r == matches_at(t@, p@, i as int),
{
    let mut j: usize = 0;
    while j < p.len()
        invariant
            j <= p.len(),
            i + p.len() <= t.len(),
            forall|k: int| 0 <= k < j ==> t@[i + k] == p@[k],
        decreases p.len() - j,
    {
        if t[i + j] != p[j] {
            proof {
                assert(t@.subrange(i as int, i + p@.len() as int)[j as int] == t@[i + j]);
            }
            return false;
        }
        j += 1;
    }
    proof {
        assert(t@.subrange(i as int, i + p@.len() as int) =~= p@);
    }
    true
}

/// Whether `p` occurs as a contiguous run of characters inside `t`.
pub fn contains_sub(t: &Vec<char>, p: &Vec<char>) -> (r: bool)
    ensures
        r == spec_contains(t@, p@),
{
    if p.len() > t.len() {
        proof {
            assert(forall|i: int| !matches_at(t@, p@, i));
        }
        return false;
    }
    if p.len() == 0 {
        proof {
            assert(t@.subrange(0, 0) =~= p@);
            assert(matches_at(t@, p@, 0));
        }
        return true;
    }
    let end = t.len() - p.len();
    let mut i: usize = 0;
    while i <= end
        invariant
            i <= end + 1,
            end == t.len() - p.len(),
            0 < p.len() <= t.len(),
            forall|k: int| 0 <= k < i ==> !matches_at(t@, p@, k),
        decreases end - i + 1,
    {
        if match_at(t, p, i) {
            return true;
        }
        i += 1;
    }
    proof {
        assert(forall|k: int| #[trigger] matches_at(t@, p@, k) ==> 0 <= k <= end);
    }
    false
}

/// Whether `t` begins with `p`.
pub fn starts_with_sub(t: &Vec<char>, p: &Vec<char>) -> (r: bool)
    ensures
        r == matches_at(t@, p@, 0),
{
    if p.len() > t.len() {
        return false;
    }
    match_at(t, p, 0)
}

/// A copy of `t[a..b]`.
pub fn slice_range(t: &Vec<char>, a: usize, b: usize) -> (r: Vec<char>)
    requires
        a <= b <= t.len(),
    ensures
        r@ == t@.subrange(a as int, b as int),
{
    let mut r: Vec<char> = Vec::new();
    let mut i: usize = a;
    while i < b
        invariant
            a <= i <= b <= t.len(),
            r@ == t@.subrange(a as int, i as int),
        decreases b - i,
    {
        r.push(t[i]);
        proof {
            assert(r@ =~= t@.subrange(a as int, i as int + 1));
        }
        i += 1;
    }
    r
}

/// The first index at or after `from` where `c` occurs, if any.
pub fn find_char_from(t: &Vec<char>, from: usize, c: char) -> (r: Option<usize>)
    requires
        from <= t.len(),
    ensures
        match r {
            Some(i) => from <= i < t@.len() && t@[i as int] == c && forall|j: int|
                from <= j < i ==> t@[j] != c,
            None => forall|j: int| from <= j < t@.len() ==> t@[j] != c,
        },
{
    let mut i: usize = from;
    while i < t.len()
        invariant
            from <= i <= t.len(),
            forall|j: int| from <= j < i ==> t@[j] != c,
        decreases t.len() - i,
    {
        if t[i] == c {
            return Some(i);
        }
        i += 1;
    }
    None
}

/// The first index where `c` occurs in `s`, or -1 if it never does.
pub open spec fn spec_find_char(s: Seq<char>, c: char) -> int
    decreases s.len(),
{
    if s.len() == 0 {
        -1
    } else if s[0] == c {
        0
    } else if spec_find_char(s.drop_first(), c) == -1 {
        -1
    } else {
        1 + spec_find_char(s.drop_first(), c)
    }
}

/// What the first-occurrence index means.
pub proof fn lemma_find_char_props(s: Seq<char>, c: char)
    ensures
        spec_find_char(s, c) == -1 ==> forall|j: int| 0 <= j < s.len() ==> s[j] != c,
        spec_find_char(s, c) != -1 ==> {
            let f = spec_find_char(s, c);
            0 <= f < s.len() && s[f] == c && forall|j: int| 0 <= j < f ==> s[j] != c
        },
    decreases s.len(),
{
    if s.len() > 0 && s[0] != c {
        let d = s.drop_first();
        lemma_find_char_props(d, c);
        assert(forall|j: int| 0 <= j < d.len() ==> (#[trigger] d[j]) == s[j + 1]);
        if spec_find_char(d, c) == -1 {
            assert forall|j: int| 0 <= j < s.len() implies s[j] != c by {
                if j > 0 {
                    assert(d[j - 1] != c);
                }
            }
        } else {
            let f = spec_find_char(s, c);
            assert(f == 1 + spec_find_char(d, c));
            assert(s[f] == d[f - 1]);
            assert forall|j: int| 0 <= j < f implies s[j] != c by {
                if j > 0 {
                    assert(d[j - 1] != c);
                }
            }
        }
    }
}

/// The last index where `c` occurs in `s`, or -1 if it never does.
pub open spec fn spec_last_index_of(s: Seq<char>, c: char) -> int
    decreases s.len(),
{
    if s.len() == 0 {
        -1
    } else if s.last() == c {
        s.len() - 1
    } else {
        spec_last_index_of(s.drop_last(), c)
    }
}

/// The last occurrence of `c` in `t`, if any.
pub fn last_index_of(t: &Vec<char>, c: char) -> (r: Option<usize>)
    ensures
        match r {
            Some(i) => i < t@.len() && spec_last_index_of(t@, c) == i as int,
            None => spec_last_index_of(t@, c) == -1,
        },
{
    let mut i: usize = t.len();
    proof {
        assert(t@.take(t@.len() as int) =~= t@);
    }
    while i > 0
        invariant
            i <= t.len(),
            spec_last_index_of(t@, c) == spec_last_index_of(t@.take(i as int), c),
        decreases i,
    {
        proof {
            assert(t@.take(i as int).last() == t@[i - 1]);
            assert(t@.take(i as int).drop_last() =~= t@.take(i as int - 1));
        }
        if t[i - 1] == c {
            return Some(i - 1);
        }
        i -= 1;
    }
    None
}

// ---------------------------------------------------------------------------
// Whitespace words
// ---------------------------------------------------------------------------

/// ASCII whitespace, the separators recognised when a query is split into
/// words.
pub open spec fn is_space_char(c: char) -> bool {
    c == ' ' || c == '\t' || c == '\n' || c == '\r'
}

fn space_char(c: char) -> (r: bool)
    ensures
        r == is_space_char(c),
{
    c == ' ' || c == '\t' || c == '\n' || c == '\r'
}

/// The words accumulated by a left-to-right scan of `s` from position `i`,
/// with `cur` the word in progress and `acc` the words already complete.
pub open spec fn words_from(s: Seq<char>, i: int, cur: Seq<char>, acc: Seq<Seq<char>>) -> Seq<
    Seq<char>,
>
    decreases s.len() - i,
    when 0 <= i <= s.len()
{
    if i >= s.len() {
        if cur.len() > 0 {
            acc.push(cur)
        } else {
            acc
        }
    } else if is_space_char(s[i]) {
        words_from(
            s,
            i + 1,
            Seq::empty(),
            if cur.len() > 0 {
                acc.push(cur)
            } else {
                acc
            },
        )
    } else {
        words_from(s, i + 1, cur.push(s[i]), acc)
    }
}

/// The maximal runs of non-whitespace characters in `s`, in order.
pub open spec fn spec_words(s: Seq<char>) -> Seq<Seq<char>> {
    words_from(s, 0, Seq::empty(), Seq::empty())
}

/// The character sequences held by a sequence of character vectors.
pub open spec fn views_of(s: Seq<Vec<char>>) -> Seq<Seq<char>> {
    Seq::new(s.len(), |i: int| s[i]@)
}

/// Splits `s` into its whitespace-delimited words.
pub fn split_words(s: &Vec<char>) -> (r: Vec<Vec<char>>)
    ensures
        views_of(r@) == spec_words(s@),
{
    let mut acc: Vec<Vec<char>> = Vec::new();
    let mut cur: Vec<char> = Vec::new();
    let mut i: usize = 0;
    proof {
        assert(views_of(acc@) =~= Seq::<Seq<char>>::empty());
    }
    while i < s.len()
        invariant
            i <= s.len(),
            words_from(s@, i as int, cur@, views_of(acc@)) == spec_words(s@),
        decreases s.len() - i,
    {
        let ghost gi = i as int;
        let ghost gcur = cur@;
        let ghost gacc = views_of(acc@);
        if space_char(s[i]) {
            if cur.len() > 0 {
                acc.push(cur);
                proof {
                    assert(views_of(acc@) =~= gacc.push(gcur));
                }
                cur = Vec::new();
            }
            proof {
                assert(cur@ =~= Seq::<char>::empty());
                assert(words_from(s@, gi, gcur, gacc) == words_from(
                    s@,
                    gi + 1,
                    Seq::empty(),
                    if gcur.len() > 0 {
                        gacc.push(gcur)
                    } else {
                        gacc
                    },
                ));
            }
        } else {
            cur.push(s[i]);
            proof {
                assert(words_from(s@, gi, gcur, gacc) == words_from(
                    s@,
                    gi + 1,
                    gcur.push(s@[gi]),
                    gacc,
                ));
            }
        }
        i += 1;
    }
    if cur.len() > 0 {
        let ghost prev = views_of(acc@);
        let ghost word = cur@;
        acc.push(cur);
        proof {
            assert(views_of(acc@) =~= prev.push(word));
        }
    }
    acc
}

// ---------------------------------------------------------------------------
// Decimal and hexadecimal rendering
// ---------------------------------------------------------------------------

/// The character for one decimal digit.
pub open spec fn digit_char(d: int) -> char {
    if d == 0 {
        '0'
    } else if d == 1 {
        '1'
    } else if d == 2 {
        '2'
    } else if d == 3 {
        '3'
    } else if d == 4 {
        '4'
    } else if d == 5 {
        '5'
    } else if d == 6 {
        '6'
    } else if d == 7 {
        '7'
    } else if d == 8 {
        '8'
    } else {
        '9'
    }
}

/// The decimal digits of `n`, most significant first, no padding.
pub open spec fn spec_dec_u64(n: int) -> Seq<char>
    decreases n,
    when n >= 0
{
    if n < 10 {
        seq![digit_char(n)]
    } else {
        spec_dec_u64(n / 10).push(digit_char(n % 10))
    }
}

/// The decimal rendering of a signed value: a minus sign, then digits.
pub open spec fn spec_dec_i64(n: int) -> Seq<char> {
    if n >= 0 {
        spec_dec_u64(n)
    } else {
        seq!['-'] + spec_dec_u64(-n)
    }
}

fn dec_digit(d: u64) -> (c: char)
    requires
        d < 10,
    ensures
        c == digit_char(d as int),
{
    if d == 0 {
        '0'
    } else if d == 1 {
        '1'
    } else if d == 2 {
        '2'
    } else if d == 3 {
        '3'
    } else if d == 4 {
        '4'
    } else if d == 5 {
        '5'
    } else if d == 6 {
        '6'
    } else if d == 7 {
        '7'
    } else if d == 8 {
        '8'
    } else {
        '9'
    }
}

fn dec_u64_into(n: u64, out: &mut Vec<char>)
    ensures
        final(out)@ == old(out)@ + spec_dec_u64(n as int),
    decreases n,
{
    if n < 10 {
        out.push(dec_digit(n));
        proof {
            assert(out@ =~= old(out)@ + spec_dec_u64(n as int));
        }
    } else {
        dec_u64_into(n / 10, out);
        out.push(dec_digit(n % 10));
        proof {
            assert(out@ =~= old(out)@ + spec_dec_u64(n as int));
        }
    }
}

/// Renders `n` in decimal.
pub fn u64_to_string(n: u64) -> (r: String)
    ensures
        r@ == spec_dec_u64(n as int),
{
    let mut v: Vec<char> = Vec::new();
    dec_u64_into(n, &mut v);
    proof {
        assert(v@ =~= spec_dec_u64(n as int));
    }
    from_chars(&v)
}

/// Renders `n` in decimal, with a leading minus sign when negative.
pub fn i64_to_string(n: i64) -> (r: String)
    ensures
        r@ == spec_dec_i64(n as int),
{
    if n >= 0 {
        u64_to_string(n as u64)
    } else {
        let mag: u64 = if n == i64::MIN {
            9223372036854775808u64
        } else {
            (-n) as u64
        };
        let mut v: Vec<char> = Vec::new();
        v.push('-');
        dec_u64_into(mag, &mut v);
        proof {
            assert(v@ =~= spec_dec_i64(n as int));
        }
        from_chars(&v)
    }
}

/// The character for one hexadecimal digit, lower case.
pub open spec fn hex_char(d: int) -> char {
    if d < 10 {
        digit_char(d)
    } else if d == 10 {
        'a'
    } else if d == 11 {
        'b'
    } else if d == 12 {
        'c'
    } else if d == 13 {
        'd'
    } else if d == 14 {
        'e'
    } else {
        'f'
    }
}

/// The hexadecimal digits of `n`, most significant first, no padding.
pub open spec fn spec_hex_u32(n: int) -> Seq<char>
    decreases n,
    when n >= 0
{
    if n < 16 {
        seq![hex_char(n)]
    } else {
        spec_hex_u32(n / 16).push(hex_char(n % 16))
    }
}

fn hex_digit(d: u32) -> (c: char)
    requires
        d < 16,
    ensures
        c == hex_char(d as int),
{
    if d < 10 {
        dec_digit(d as u64)
    } else if d == 10 {
        'a'
    } else if d == 11 {
        'b'
    } else if d == 12 {
        'c'
    } else if d == 13 {
        'd'
    } else if d == 14 {
        'e'
    } else {
        'f'
    }
}

fn hex_u32_into(n: u32, out: &mut Vec<char>)
    ensures
        final(out)@ == old(out)@ + spec_hex_u32(n as int),
    decreases n,
{
    if n < 16 {
        out.push(hex_digit(n));
        proof {
            assert(out@ =~= old(out)@ + spec_hex_u32(n as int));
        }
    } else {
        hex_u32_into(n / 16, out);
        out.push(hex_digit(n % 16));
        proof {
            assert(out@ =~= old(out)@ + spec_hex_u32(n as int));
        }
    }
}

/// The first `n` characters of `s`, or all of them when `s` is shorter.
pub open spec fn spec_take(s: Seq<char>, n: int) -> Seq<char> {
    if n <= s.len() {
        s.take(n)
    } else {
        s
    }
}

/// Renders `n` in lower-case hexadecimal and keeps the first `keep`
/// characters.
pub fn hex_u32_prefix(n: u32, keep: usize) -> (r: String)
    ensures
        r@ == spec_take(spec_hex_u32(n as int), keep as int),
{
    let mut v: Vec<char> = Vec::new();
    hex_u32_into(n, &mut v);
    proof {
        assert(v@ =~= spec_hex_u32(n as int));
    }
    let end = if keep <= v.len() {
        keep
    } else {
        v.len()
    };
    let w = slice_range(&v, 0, end);
    proof {
        if keep <= v@.len() {
            assert(w@ =~= spec_take(spec_hex_u32(n as int), keep as int));
        } else {
            assert(w@ =~= spec_take(spec_hex_u32(n as int), keep as int));
        }
    }
    from_chars(&w)
}

} // verus!
