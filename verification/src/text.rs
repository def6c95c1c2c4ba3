//! Character-level helpers shared by the protocol modules.
//!
//! Text is handled as sequences of `char`; every helper states its result over
//! the mathematical sequence `Seq<char>`.

use vstd::prelude::*;

verus! {

/// Appends one character to a string (std's `String::push`).
#[verifier::external_body]
pub(crate) fn push_char(s: &mut String, c: char)
    ensures
        final(s)@ == old(s)@.push(c),
{
    s.push(c);
}

/// The characters of `s`, in order.
pub fn chars_of(s: &str) -> (r: Vec<char>)
    ensures
        r@ == s@,
{
    let mut out: Vec<char> = Vec::new();
    for c in it: s.chars()
        invariant
            it.seq() == s@,
            out@ == it.seq().take(it.index() as int),
    {
        out.push(c);
    }
    out
}

/// A string holding exactly the characters `cs`.
pub fn string_of(cs: &[char]) -> (r: String)
    ensures
        r@ == cs@,
{
    let mut out = String::new();
    let mut i: usize = 0;
    while i < cs.len()
        invariant
            i <= cs@.len(),
            out@ == cs@.take(i as int),
        decreases cs@.len() - i,
    {
        push_char(&mut out, cs[i]);
        assert(cs@.take(i as int).push(cs@[i as int]) =~= cs@.take(i + 1));
        i = i + 1;
    }
    assert(cs@.take(cs@.len() as int) =~= cs@);
    out
}

/// Appends all of `src` to `dst`.
pub fn extend_chars(dst: &mut Vec<char>, src: &[char])
    ensures
        final(dst)@ == old(dst)@ + src@,
{
    let ghost start = dst@;
    let mut i: usize = 0;
    while i < src.len()
        invariant
            i <= src@.len(),
            dst@ == start + src@.take(i as int),
        decreases src@.len() - i,
    {
        dst.push(src[i]);
        assert(start + src@.take(i as int).push(src@[i as int]) =~= start + src@.take(i + 1));
        i = i + 1;
    }
    assert(src@.take(src@.len() as int) =~= src@);
}

/// Appends the characters of `s` to `dst`.
pub fn extend_str(dst: &mut Vec<char>, s: &str)
    ensures
        final(dst)@ == old(dst)@ + s@,
{
    let cs = chars_of(s);
    extend_chars(dst, cs.as_slice());
}

/// The chars of `s` from `from` (inclusive) to `to` (exclusive).
pub fn sub_chars(s: &[char], from: usize, to: usize) -> (r: Vec<char>)
    requires
        from <= to <= s@.len(),
    ensures
        r@ == s@.subrange(from as int, to as int),
{
    let mut out: Vec<char> = Vec::new();
    let mut i: usize = from;
    while i < to
        invariant
            from <= i <= to <= s@.len(),
            out@ == s@.subrange(from as int, i as int),
        decreases to - i,
    {
        out.push(s[i]);
        assert(s@.subrange(from as int, i as int).push(s@[i as int]) =~= s@.subrange(
            from as int,
            i + 1,
        ));
        i = i + 1;
    }
    out
}

// ----- character classes -----

/// Unicode `White_Space` (what std's `char::is_whitespace` and `str::trim` use).
pub open spec fn is_ws(c: char) -> bool {
    let u = c as u32;
    ||| 0x09 <= u <= 0x0D
    ||| u == 0x20
    ||| u == 0x85
    ||| u == 0xA0
    ||| u == 0x1680
    ||| 0x2000 <= u <= 0x200A
    ||| u == 0x2028
    ||| u == 0x2029
    ||| u == 0x202F
    ||| u == 0x205F
    ||| u == 0x3000
}

pub fn is_whitespace(c: char) -> (r: bool)
    ensures
        r == is_ws(c),
{
    let u = c as u32;
    (0x09 <= u && u <= 0x0D) || u == 0x20 || u == 0x85 || u == 0xA0 || u == 0x1680 || (0x2000
        <= u && u <= 0x200A) || u == 0x2028 || u == 0x2029 || u == 0x202F || u == 0x205F || u
        == 0x3000
}

pub open spec fn is_digit(c: char) -> bool {
    '0' <= c <= '9'
}

pub open spec fn is_upper(c: char) -> bool {
    'A' <= c <= 'Z'
}

pub open spec fn is_lower(c: char) -> bool {
    'a' <= c <= 'z'
}

pub open spec fn is_alpha(c: char) -> bool {
    is_upper(c) || is_lower(c)
}

pub open spec fn is_alnum(c: char) -> bool {
    is_alpha(c) || is_digit(c)
}

pub open spec fn is_hex(c: char) -> bool {
    is_digit(c) || ('a' <= c <= 'f') || ('A' <= c <= 'F')
}

pub fn is_ascii_digit(c: char) -> (r: bool)
    ensures
        r == is_digit(c),
{
    '0' <= c && c <= '9'
}

pub fn is_ascii_alpha(c: char) -> (r: bool)
    ensures
        r == is_alpha(c),
{
    ('A' <= c && c <= 'Z') || ('a' <= c && c <= 'z')
}

pub fn is_ascii_alnum(c: char) -> (r: bool)
    ensures
        r == is_alnum(c),
{
    is_ascii_alpha(c) || is_ascii_digit(c)
}

pub fn is_hex_digit(c: char) -> (r: bool)
    ensures
        r == is_hex(c),
{
    ('0' <= c && c <= '9') || ('a' <= c && c <= 'f') || ('A' <= c && c <= 'F')
}

/// ASCII lower-casing of one character.
pub open spec fn lower(c: char) -> char {
    if is_upper(c) {
        ((c as u32) + 32) as char
    } else {
        c
    }
}

/// ASCII upper-casing of one character.
pub open spec fn upper(c: char) -> char {
    if is_lower(c) {
        ((c as u32) - 32) as char
    } else {
        c
    }
}

pub fn to_lower(c: char) -> (r: char)
    ensures
        r == lower(c),
{
    if 'A' <= c && c <= 'Z' {
        let b: u8 = (c as u32 + 32) as u8;
        b as char
    } else {
        c
    }
}

pub fn to_upper(c: char) -> (r: char)
    ensures
        r == upper(c),
{
    if 'a' <= c && c <= 'z' {
        let b: u8 = (c as u32 - 32) as u8;
        b as char
    } else {
        c
    }
}

pub open spec fn lower_seq(s: Seq<char>) -> Seq<char> {
    s.map_values(|c: char| lower(c))
}

pub open spec fn upper_seq(s: Seq<char>) -> Seq<char> {
    s.map_values(|c: char| upper(c))
}

pub fn lower_chars(s: &[char]) -> (r: Vec<char>)
    ensures
        r@ == lower_seq(s@),
{
    let mut out: Vec<char> = Vec::new();
    let mut i: usize = 0;
    while i < s.len()
        invariant
            i <= s@.len(),
            out@ == lower_seq(s@.take(i as int)),
        decreases s@.len() - i,
    {
        out.push(to_lower(s[i]));
        assert(lower_seq(s@.take(i + 1)) =~= lower_seq(s@.take(i as int)).push(lower(s@[i as int])));
        i = i + 1;
    }
    assert(s@.take(s@.len() as int) =~= s@);
    out
}

pub fn upper_chars(s: &[char]) -> (r: Vec<char>)
    ensures
        r@ == upper_seq(s@),
{
    let mut out: Vec<char> = Vec::new();
    let mut i: usize = 0;
    while i < s.len()
        invariant
            i <= s@.len(),
            out@ == upper_seq(s@.take(i as int)),
        decreases s@.len() - i,
    {
        out.push(to_upper(s[i]));
        assert(upper_seq(s@.take(i + 1)) =~= upper_seq(s@.take(i as int)).push(upper(s@[i as int])));
        i = i + 1;
    }
    assert(s@.take(s@.len() as int) =~= s@);
    out
}

// ----- trimming -----

pub open spec fn trim_start(s: Seq<char>) -> Seq<char>
    decreases s.len(),
{
    if s.len() > 0 && is_ws(s[0]) {
        trim_start(s.drop_first())
    } else {
        s
    }
}

pub open spec fn trim_end(s: Seq<char>) -> Seq<char>
    decreases s.len(),
{
    if s.len() > 0 && is_ws(s.last()) {
        trim_end(s.drop_last())
    } else {
        s
    }
}

/// What std's `str::trim` leaves of `s`.
pub open spec fn trim(s: Seq<char>) -> Seq<char> {
    trim_end(trim_start(s))
}

/// Text that neither starts nor ends with whitespace is its own trim.
pub proof fn lemma_trim_fixed(s: Seq<char>)
    requires
        s.len() > 0 ==> !is_ws(s[0]) && !is_ws(s.last()),
    ensures
        trim(s) == s,
{
}

/// What `trim` keeps neither starts nor ends with whitespace.
pub proof fn lemma_trim_ends(s: Seq<char>)
    ensures
        trim(s).len() > 0 ==> !is_ws(trim(s)[0]) && !is_ws(trim(s).last()),
        trim(trim(s)) == trim(s),
    decreases s.len(),
{
    if s.len() > 0 && is_ws(s[0]) {
        lemma_trim_ends(s.drop_first());
    } else {
        lemma_trim_end_ends(s);
    }
    let t = trim(s);
    lemma_trim_fixed(t);
}

proof fn lemma_trim_end_ends(s: Seq<char>)
    requires
        s.len() > 0 ==> !is_ws(s[0]),
    ensures
        trim_end(s).len() > 0 ==> !is_ws(trim_end(s)[0]) && !is_ws(trim_end(s).last()),
    decreases s.len(),
{
    if s.len() > 0 && is_ws(s.last()) {
        let d = s.drop_last();
        if d.len() > 0 {
            assert(d[0] == s[0]);
        }
        lemma_trim_end_ends(d);
    }
}

/// Index of the first char that `trim_start` keeps.
fn trim_start_index(s: &[char]) -> (i: usize)
    ensures
        i <= s@.len(),
        trim_start(s@) == s@.subrange(i as int, s@.len() as int),
{
    let n = s.len();
    let mut i: usize = 0;
    assert(s@.subrange(0, n as int) =~= s@);
    while i < n && is_whitespace(s[i])
        invariant
            i <= n == s@.len(),
            trim_start(s@) == trim_start(s@.subrange(i as int, n as int)),
        decreases n - i,
    {
        assert(s@.subrange(i as int, n as int).drop_first() =~= s@.subrange(i + 1, n as int));
        i = i + 1;
    }
    i
}

/// End index (exclusive) of what `trim_end` keeps of `s[from..]`.
fn trim_end_index(s: &[char], from: usize) -> (j: usize)
    requires
        from <= s@.len(),
    ensures
        from <= j <= s@.len(),
        trim_end(s@.subrange(from as int, s@.len() as int)) == s@.subrange(from as int, j as int),
{
    let n = s.len();
    let mut j: usize = n;
    while j > from && is_whitespace(s[j - 1])
        invariant
            from <= j <= n == s@.len(),
            trim_end(s@.subrange(from as int, n as int)) == trim_end(
                s@.subrange(from as int, j as int),
            ),
        decreases j,
    {
        assert(s@.subrange(from as int, j as int).drop_last() =~= s@.subrange(
            from as int,
            j - 1,
        ));
        j = j - 1;
    }
    j
}

pub fn trim_chars(s: &[char]) -> (r: Vec<char>)
    ensures
        r@ == trim(s@),
{
    let i = trim_start_index(s);
    let j = trim_end_index(s, i);
    sub_chars(s, i, j)
}

pub fn trim_end_chars(s: &[char]) -> (r: Vec<char>)
    ensures
        r@ == trim_end(s@),
{
    let j = trim_end_index(s, 0);
    assert(s@.subrange(0, s@.len() as int) =~= s@);
    sub_chars(s, 0, j)
}

/// The trimmed characters of a string.
pub fn trimmed(s: &str) -> (r: Vec<char>)
    ensures
        r@ == trim(s@),
{
    let cs = chars_of(s);
    trim_chars(cs.as_slice())
}

// ----- prefixes, search -----

pub open spec fn starts_with(s: Seq<char>, p: Seq<char>) -> bool {
    p.len() <= s.len() && s.take(p.len() as int) == p
}

pub open spec fn ends_with(s: Seq<char>, p: Seq<char>) -> bool {
    p.len() <= s.len() && s.skip(s.len() - p.len()) == p
}

/// `p` occurs in `s` at position `i`.
pub open spec fn occurs_at(s: Seq<char>, p: Seq<char>, i: int) -> bool {
    0 <= i && i + p.len() <= s.len() && s.subrange(i, i + p.len()) == p
}

pub open spec fn contains(s: Seq<char>, p: Seq<char>) -> bool {
    exists|i: int| occurs_at(s, p, i)
}

pub fn has_prefix(s: &[char], p: &[char]) -> (r: bool)
    ensures
        r == starts_with(s@, p@),
{
    if p.len() > s.len() {
        return false;
    }
    let mut i: usize = 0;
    while i < p.len()
        invariant
            i <= p@.len() <= s@.len(),
            s@.take(i as int) == p@.take(i as int),
        decreases p@.len() - i,
    {
        if s[i] != p[i] {
            assert(s@.take(p@.len() as int)[i as int] != p@[i as int]);
            return false;
        }
        assert(s@.take(i + 1) =~= s@.take(i as int).push(s@[i as int]));
        assert(p@.take(i + 1) =~= p@.take(i as int).push(p@[i as int]));
        i = i + 1;
    }
    assert(p@.take(p@.len() as int) =~= p@);
    true
}

/// Whether `p` occurs in `s` at `i`.
pub fn matches_at(s: &[char], p: &[char], i: usize) -> (r: bool)
    ensures
        r == occurs_at(s@, p@, i as int),
{
    if i > s.len() || p.len() > s.len() - i {
        return false;
    }
    let n = s.len();
    let mut k: usize = 0;
    while k < p.len()
        invariant
            k <= p@.len(),
            n == s@.len(),
            i <= s@.len(),
            i + p@.len() <= s@.len(),
            s@.subrange(i as int, i + k) == p@.take(k as int),
        decreases p@.len() - k,
    {
        if s[i + k] != p[k] {
            assert(s@.subrange(i as int, i + p@.len())[k as int] != p@[k as int]);
            return false;
        }
        assert(s@.subrange(i as int, i + k + 1) =~= s@.subrange(i as int, i + k).push(
            s@[i + k],
        ));
        assert(p@.take(k + 1) =~= p@.take(k as int).push(p@[k as int]));
        k = k + 1;
    }
    assert(p@.take(p@.len() as int) =~= p@);
    true
}

/// First position at which `p` occurs in `s`.
pub open spec fn first_occurrence(s: Seq<char>, p: Seq<char>) -> Option<int> {
    if contains(s, p) {
        Some(choose|i: int| occurs_at(s, p, i) && forall|j: int| 0 <= j < i ==> !occurs_at(s, p, j))
    } else {
        None
    }
}

pub fn find(s: &[char], p: &[char]) -> (r: Option<usize>)
    ensures
        r matches Some(i) ==> occurs_at(s@, p@, i as int) && forall|j: int|
            0 <= j < i ==> !occurs_at(s@, p@, j),
        r is None ==> !contains(s@, p@),
{
    let mut i: usize = 0;
    while i < s.len()
        invariant
            i <= s@.len(),
            forall|j: int| 0 <= j < i ==> !occurs_at(s@, p@, j),
        decreases s@.len() - i,
    {
        if matches_at(s, p, i) {
            return Some(i);
        }
        i = i + 1;
    }
    if matches_at(s, p, i) {
        return Some(i);
    }
    assert forall|j: int| !occurs_at(s@, p@, j) by {
        if 0 <= j <= i {
        }
    }
    None
}

/// First index of char `c` in `s`.
pub fn find_char(s: &[char], c: char) -> (r: Option<usize>)
    ensures
        r matches Some(i) ==> i < s@.len() && s@[i as int] == c && forall|j: int|
            0 <= j < i ==> s@[j] != c,
        r is None ==> !s@.contains(c),
{
    let mut i: usize = 0;
    while i < s.len()
        invariant
            i <= s@.len(),
            forall|j: int| 0 <= j < i ==> s@[j] != c,
        decreases s@.len() - i,
    {
        if s[i] == c {
            return Some(i);
        }
        i = i + 1;
    }
    None
}

/// Last index of char `c` in `s`.
pub fn rfind_char(s: &[char], c: char) -> (r: Option<usize>)
    ensures
        r matches Some(i) ==> i < s@.len() && s@[i as int] == c && forall|j: int|
            i < j < s@.len() ==> s@[j] != c,
        r is None ==> !s@.contains(c),
{
    let mut i: usize = s.len();
    while i > 0
        invariant
            i <= s@.len(),
            forall|j: int| i <= j < s@.len() ==> s@[j] != c,
        decreases i,
    {
        if s[i - 1] == c {
            return Some(i - 1);
        }
        i = i - 1;
    }
    None
}

// ----- decimal numbers -----

pub open spec fn digit(d: nat) -> char {
    (48 + d) as char
}

/// Decimal representation of `n`, without leading zeros.
pub open spec fn dec(n: nat) -> Seq<char>
    decreases n,
{
    if n < 10 {
        seq![digit(n)]
    } else {
        dec(n / 10).push(digit(n % 10))
    }
}

/// `dec(n)` left-padded with zeros to at least `w` chars.
pub open spec fn dec_pad(n: nat, w: nat) -> Seq<char> {
    let d = dec(n);
    if d.len() >= w {
        d
    } else {
        Seq::new((w - d.len()) as nat, |i: int| '0') + d
    }
}

pub proof fn lemma_dec_len(n: nat)
    ensures
        1 <= dec(n).len(),
        n < 10 ==> dec(n).len() == 1,
        10 <= n < 100 ==> dec(n).len() == 2,
        100 <= n < 1000 ==> dec(n).len() == 3,
    decreases n,
{
    if n >= 10 {
        lemma_dec_len(n / 10);
    }
}

pub fn digit_char(d: u64) -> (c: char)
    requires
        d < 10,
    ensures
        c == digit(d as nat),
{
    let b: u8 = (48 + d) as u8;
    b as char
}

/// Appends the decimal form of `n`.
pub fn push_dec(out: &mut Vec<char>, n: u64)
    ensures
        final(out)@ == old(out)@ + dec(n as nat),
    decreases n,
{
    if n < 10 {
        out.push(digit_char(n));
        assert(dec(n as nat) =~= seq![digit(n as nat)]);
    } else {
        push_dec(out, n / 10);
        out.push(digit_char(n % 10));
        assert(dec(n as nat) =~= dec((n / 10) as nat).push(digit((n % 10) as nat)));
    }
}

/// Appends `n` zero-padded to width `w`.
pub fn push_dec_pad(out: &mut Vec<char>, n: u64, w: usize)
    ensures
        final(out)@ == old(out)@ + dec_pad(n as nat, w as nat),
{
    let mut d: Vec<char> = Vec::new();
    push_dec(&mut d, n);
    assert(d@ =~= dec(n as nat));
    if d.len() < w {
        let ghost start = out@;
        let k = w - d.len();
        let mut i: usize = 0;
        while i < k
            invariant
                i <= k,
                out@ == start + Seq::new(i as nat, |j: int| '0'),
            decreases k - i,
        {
            out.push('0');
            assert(Seq::new(i as nat, |j: int| '0').push('0') =~= Seq::new((i + 1) as nat, |j: int| '0'));
            i = i + 1;
        }
        extend_chars(out, d.as_slice());
        assert(start + Seq::new(k as nat, |j: int| '0') + d@ =~= start + (Seq::new(
            k as nat,
            |j: int| '0',
        ) + d@));
    } else {
        extend_chars(out, d.as_slice());
    }
}

// ----- unsigned integer parsing -----

/// Value of a run of decimal digits.
pub open spec fn digits_value(s: Seq<char>) -> nat
    decreases s.len(),
{
    if s.len() == 0 {
        0
    } else {
        digits_value(s.drop_last()) * 10 + ((s.last() as u32) - 48) as nat
    }
}

pub open spec fn only_digits(s: Seq<char>) -> bool {
    forall|i: int| 0 <= i < s.len() ==> is_digit(#[trigger] s[i])
}

/// What std's `u16::from_str` gives: an optional leading `+`, then at least
/// one decimal digit and nothing else, with a value that fits.
pub open spec fn spec_parse_u16(s: Seq<char>) -> Option<u16> {
    let d = if s.len() > 0 && s[0] == '+' {
        s.drop_first()
    } else {
        s
    };
    if d.len() == 0 || !only_digits(d) || digits_value(d) > 65535 {
        None
    } else {
        Some(digits_value(d) as u16)
    }
}

proof fn lemma_digits_value_grows(s: Seq<char>, k: int)
    requires
        only_digits(s),
        0 <= k <= s.len(),
    ensures
        digits_value(s.take(k)) <= digits_value(s),
    decreases s.len() - k,
{
    if k < s.len() {
        lemma_digits_value_grows(s, k + 1);
        assert(s.take(k + 1).drop_last() =~= s.take(k));
    } else {
        assert(s.take(k) =~= s);
    }
}

pub fn parse_u16(s: &[char]) -> (r: Option<u16>)
    ensures
        r == spec_parse_u16(s@),
{
    let start: usize = if s.len() > 0 && s[0] == '+' {
        1
    } else {
        0
    };
    let ghost d = if s@.len() > 0 && s@[0] == '+' {
        s@.drop_first()
    } else {
        s@
    };
    assert(d =~= s@.skip(start as int));
    if start >= s.len() {
        return None;
    }
    let mut v: u32 = 0;
    let mut i: usize = start;
    while i < s.len()
        invariant
            start <= i <= s@.len(),
            d == s@.skip(start as int),
            d == (if s@.len() > 0 && s@[0] == '+' {
                s@.drop_first()
            } else {
                s@
            }),
            only_digits(d.take(i - start)),
            v as nat == digits_value(d.take(i - start)),
            v <= 65535,
        decreases s@.len() - i,
    {
        let c = s[i];
        assert(d[i - start] == c);
        if !is_ascii_digit(c) {
            assert(!only_digits(d));
            assert(spec_parse_u16(s@) is None);
            return None;
        }
        let nv: u32 = v * 10 + (c as u32 - 48);
        assert(d.take(i - start + 1).drop_last() =~= d.take(i - start));
        assert(d.take(i - start + 1).last() == c);
        assert(nv as nat == digits_value(d.take(i - start + 1)));
        if nv > 65535 {
            proof {
                assert forall|j: int| 0 <= j < d.take(i - start + 1).len() implies is_digit(
                    #[trigger] d.take(i - start + 1)[j],
                ) by {
                    if j < i - start {
                        assert(d.take(i - start + 1)[j] == d.take(i - start)[j]);
                    }
                }
                if only_digits(d) {
                    lemma_digits_value_grows(d, i - start + 1);
                }
                assert(spec_parse_u16(s@) is None);
            }
            return None;
        }
        v = nv;
        i = i + 1;
    }
    assert(d.take(i - start) =~= d);
    Some(v as u16)
}

/// What std's `u32::from_str` gives: an optional leading `+`, then at least
/// one decimal digit and nothing else, with a value that fits.
pub open spec fn spec_parse_u32(s: Seq<char>) -> Option<u32> {
    let d = if s.len() > 0 && s[0] == '+' {
        s.drop_first()
    } else {
        s
    };
    if d.len() == 0 || !only_digits(d) || digits_value(d) > 4294967295 {
        None
    } else {
        Some(digits_value(d) as u32)
    }
}

pub fn parse_u32(s: &[char]) -> (r: Option<u32>)
    ensures
        r == spec_parse_u32(s@),
{
    let start: usize = if s.len() > 0 && s[0] == '+' {
        1
    } else {
        0
    };
    let ghost d = if s@.len() > 0 && s@[0] == '+' {
        s@.drop_first()
    } else {
        s@
    };
    assert(d =~= s@.skip(start as int));
    if start >= s.len() {
        return None;
    }
    let mut v: u64 = 0;
    let mut i: usize = start;
    while i < s.len()
        invariant
            start <= i <= s@.len(),
            d == s@.skip(start as int),
            d == (if s@.len() > 0 && s@[0] == '+' {
                s@.drop_first()
            } else {
                s@
            }),
            only_digits(d.take(i - start)),
            v as nat == digits_value(d.take(i - start)),
            v <= 4294967295,
        decreases s@.len() - i,
    {
        let c = s[i];
        assert(d[i - start] == c);
        if !is_ascii_digit(c) {
            assert(!only_digits(d));
            assert(spec_parse_u32(s@) is None);
            return None;
        }
        let nv: u64 = v * 10 + (c as u32 - 48) as u64;
        assert(d.take(i - start + 1).drop_last() =~= d.take(i - start));
        assert(d.take(i - start + 1).last() == c);
        assert(nv as nat == digits_value(d.take(i - start + 1)));
        if nv > 4294967295 {
            proof {
                assert forall|j: int| 0 <= j < d.take(i - start + 1).len() implies is_digit(
                    #[trigger] d.take(i - start + 1)[j],
                ) by {
                    if j < i - start {
                        assert(d.take(i - start + 1)[j] == d.take(i - start)[j]);
                    }
                }
                if only_digits(d) {
                    lemma_digits_value_grows(d, i - start + 1);
                }
                assert(spec_parse_u32(s@) is None);
            }
            return None;
        }
        v = nv;
        i = i + 1;
    }
    assert(d.take(i - start) =~= d);
    Some(v as u32)
}

// ----- char positions -----

/// Index of the first `c` in `s` (`s.len()` when there is none).
pub open spec fn first_index(s: Seq<char>, c: char) -> int
    decreases s.len(),
{
    if s.len() == 0 {
        0
    } else if s[0] == c {
        0
    } else {
        1 + first_index(s.drop_first(), c)
    }
}

pub proof fn lemma_first_index_bound(s: Seq<char>, c: char)
    ensures
        0 <= first_index(s, c) <= s.len(),
        s.contains(c) ==> first_index(s, c) < s.len(),
    decreases s.len(),
{
    if s.len() > 0 && s[0] != c {
        lemma_first_index_bound(s.drop_first(), c);
        if s.contains(c) {
            let j = choose|j: int| 0 <= j < s.len() && s[j] == c;
            assert(s.drop_first()[j - 1] == c);
        }
    }
}

/// Index of the last `c` in `s` (meaningful when `s` contains `c`).
pub open spec fn last_index(s: Seq<char>, c: char) -> int {
    choose|i: int| 0 <= i < s.len() && s[i] == c && forall|j: int| i < j < s.len() ==> s[j] != c
}

pub proof fn lemma_first_index(s: Seq<char>, c: char, i: int)
    requires
        0 <= i < s.len(),
        s[i] == c,
        forall|j: int| 0 <= j < i ==> s[j] != c,
    ensures
        first_index(s, c) == i,
    decreases i,
{
    if i > 0 {
        lemma_first_index(s.drop_first(), c, i - 1);
    }
}

pub proof fn lemma_last_index(s: Seq<char>, c: char, i: int)
    requires
        0 <= i < s.len(),
        s[i] == c,
        forall|j: int| i < j < s.len() ==> s[j] != c,
    ensures
        last_index(s, c) == i,
{
    let k = last_index(s, c);
    assert(0 <= k < s.len() && s[k] == c && forall|j: int| k < j < s.len() ==> s[j] != c);
    if k < i {
        assert(s[i] != c);
    } else if k > i {
        assert(s[k] != c);
    }
}

/// Position of the first `c`, with its spec characterisation.
pub fn first_index_of(s: &[char], c: char) -> (r: Option<usize>)
    ensures
        r matches Some(i) ==> i < s@.len() && s@.contains(c) && first_index(s@, c) == i as int,
        r is None ==> !s@.contains(c),
{
    match find_char(s, c) {
        Some(i) => {
            proof {
                lemma_first_index(s@, c, i as int);
                assert(s@[i as int] == c);
            }
            Some(i)
        },
        None => None,
    }
}

/// Position of the last `c`, with its spec characterisation.
pub fn last_index_of(s: &[char], c: char) -> (r: Option<usize>)
    ensures
        r matches Some(i) ==> i < s@.len() && s@.contains(c) && last_index(s@, c) == i as int,
        r is None ==> !s@.contains(c),
{
    match rfind_char(s, c) {
        Some(i) => {
            proof {
                lemma_last_index(s@, c, i as int);
                assert(s@[i as int] == c);
            }
            Some(i)
        },
        None => None,
    }
}

// ----- UTF-8 byte lengths -----

/// The UTF-8 bytes of a char sequence.
pub open spec fn utf8(s: Seq<char>) -> Seq<u8> {
    vstd::utf8::encode_utf8(s)
}

pub proof fn lemma_utf8_concat(a: Seq<char>, b: Seq<char>)
    ensures
        utf8(a + b) == utf8(a) + utf8(b),
    decreases a.len(),
{
    if a.len() == 0 {
        assert(a + b =~= b);
        assert(utf8(a) =~= Seq::<u8>::empty());
        assert(utf8(a) + utf8(b) =~= utf8(b));
    } else {
        assert((a + b).drop_first() =~= a.drop_first() + b);
        assert((a + b)[0] == a[0]);
        lemma_utf8_concat(a.drop_first(), b);
        assert(vstd::utf8::encode_scalar(a[0] as u32) + (utf8(a.drop_first()) + utf8(b))
            =~= (vstd::utf8::encode_scalar(a[0] as u32) + utf8(a.drop_first())) + utf8(b));
    }
}

/// A char below 128 is one UTF-8 byte, its own code.
pub proof fn lemma_utf8_ascii_char(c: char)
    requires
        (c as u32) < 128,
    ensures
        utf8(seq![c]) == seq![(c as u32) as u8],
{
    let v = c as u32;
    assert((v & 0x7F) == v) by (bit_vector)
        requires
            v < 128,
    ;
    assert(seq![c].drop_first() =~= Seq::<char>::empty());
    assert(utf8(seq![c]) =~= vstd::utf8::encode_scalar(v) + utf8(Seq::<char>::empty()));
    assert(utf8(seq![c]) =~= seq![(c as u32) as u8]);
}

/// Appending a char below 128 appends its code to the UTF-8 bytes.
pub proof fn lemma_utf8_push_ascii(s: Seq<char>, c: char)
    requires
        (c as u32) < 128,
    ensures
        utf8(s.push(c)) == utf8(s).push((c as u32) as u8),
{
    assert(s.push(c) =~= s + seq![c]);
    lemma_utf8_concat(s, seq![c]);
    lemma_utf8_ascii_char(c);
    assert(utf8(s) + seq![(c as u32) as u8] =~= utf8(s).push((c as u32) as u8));
}

/// Bytes of one char in UTF-8.
pub open spec fn char_width(c: char) -> nat {
    vstd::utf8::encode_scalar(c as u32).len()
}

pub proof fn lemma_utf8_take(s: Seq<char>, k: int)
    requires
        0 <= k < s.len(),
    ensures
        utf8(s.take(k + 1)).len() == utf8(s.take(k)).len() + char_width(s[k]),
{
    assert(s.take(k + 1) =~= s.take(k) + seq![s[k]]);
    lemma_utf8_concat(s.take(k), seq![s[k]]);
    assert(seq![s[k]].drop_first() =~= Seq::<char>::empty());
    assert(utf8(seq![s[k]]) =~= vstd::utf8::encode_scalar(s[k] as u32) + utf8(Seq::<char>::empty()));
}

pub fn utf8_width(c: char) -> (w: usize)
    ensures
        w == char_width(c),
        1 <= w <= 4,
{
    proof {
        vstd::utf8::char_is_scalar(c);
    }
    let u = c as u32;
    if u < 0x80 {
        1
    } else if u < 0x800 {
        2
    } else if u < 0x10000 {
        3
    } else {
        4
    }
}

/// `n` bytes into the UTF-8 text of `s` lies between two chars.
pub open spec fn is_boundary(s: Seq<char>, n: nat) -> bool {
    exists|k: int| 0 <= k <= s.len() && #[trigger] utf8(s.take(k)).len() == n
}

/// How many chars of `s` make up its first `n` UTF-8 bytes.
pub open spec fn chars_in_bytes(s: Seq<char>, n: nat) -> int {
    choose|k: int| 0 <= k <= s.len() && #[trigger] utf8(s.take(k)).len() == n
}

proof fn lemma_utf8_take_mono(s: Seq<char>, a: int, b: int)
    requires
        0 <= a < b <= s.len(),
    ensures
        utf8(s.take(a)).len() < utf8(s.take(b)).len(),
    decreases b - a,
{
    vstd::utf8::char_is_scalar(s[b - 1]);
    lemma_utf8_take(s, b - 1);
    if a < b - 1 {
        lemma_utf8_take_mono(s, a, b - 1);
    }
}

/// Number of chars covering the first `n` bytes, when `n` is a char boundary.
pub fn chars_for_bytes(s: &[char], n: usize) -> (k: usize)
    requires
        is_boundary(s@, n as nat),
    ensures
        k == chars_in_bytes(s@, n as nat),
        k <= s@.len(),
        utf8(s@.take(k as int)).len() == n,
{
    let ghost kk = chars_in_bytes(s@, n as nat);
    let mut k: usize = 0;
    let mut b: usize = 0;
    assert(s@.take(0) =~= Seq::<char>::empty());
    assert(utf8(s@.take(0)).len() == 0);
    while b < n
        invariant
            k <= s@.len(),
            b == utf8(s@.take(k as int)).len(),
            b <= n,
            0 <= kk <= s@.len(),
            utf8(s@.take(kk)).len() == n,
            k <= kk,
        decreases n - b,
    {
        proof {
            if k >= kk {
                assert(k == kk);
                assert(false);
            }
            lemma_utf8_take(s@, k as int);
            if k + 1 < kk {
                lemma_utf8_take_mono(s@, k + 1, kk);
            }
        }
        let w = utf8_width(s[k]);
        b = b + w;
        k = k + 1;
    }
    proof {
        if k < kk {
            lemma_utf8_take_mono(s@, k as int, kk);
        }
    }
    k
}

/// The log preview of a line: lines over 160 bytes are cut to their first
/// 160 bytes and marked with `…`.
pub open spec fn preview(line: Seq<char>) -> Seq<char> {
    if utf8(line).len() > 160 {
        line.take(chars_in_bytes(line, 160)) + "…"@
    } else {
        line
    }
}

/// Cutting a line over 160 bytes needs byte 160 to fall between two chars.
pub open spec fn preview_ok(line: Seq<char>) -> bool {
    utf8(line).len() > 160 ==> is_boundary(line, 160)
}

pub fn preview_of(line: &[char]) -> (r: Vec<char>)
    requires
        preview_ok(line@),
    ensures
        r@ == preview(line@),
{
    let mut total: usize = 0;
    let mut i: usize = 0;
    let mut over = false;
    assert(line@.take(0) =~= Seq::<char>::empty());
    assert(line@.take(line@.len() as int) =~= line@);
    while i < line.len()
        invariant_except_break
            i <= line@.len(),
            total == utf8(line@.take(i as int)).len(),
            total <= 160,
            !over,
            line@.take(line@.len() as int) == line@,
        ensures
            over ==> utf8(line@).len() > 160,
            !over ==> utf8(line@).len() <= 160,
        decreases line@.len() - i,
    {
        proof {
            lemma_utf8_take(line@, i as int);
        }
        let w = utf8_width(line[i]);
        if total + w > 160 {
            proof {
                if i + 1 < line@.len() {
                    lemma_utf8_take_mono(line@, i + 1, line@.len() as int);
                }
                assert(line@.take(line@.len() as int) =~= line@);
            }
            over = true;
            break;
        }
        total = total + w;
        i = i + 1;
        if i == line.len() {
            assert(line@.take(i as int) =~= line@);
        }
    }
    if !over {
        let r = sub_chars(line, 0, line.len());
        assert(r@ =~= line@);
        return r;
    }
    let k = chars_for_bytes(line, 160);
    let mut out = sub_chars(line, 0, k);
    assert(out@ =~= line@.take(k as int));
    extend_str(&mut out, "…");
    out
}

// ----- words -----

/// Index of the first whitespace char of `s` (`s.len()` when there is none).
pub open spec fn ws_index(s: Seq<char>) -> int
    decreases s.len(),
{
    if s.len() == 0 {
        0
    } else if is_ws(s[0]) {
        0
    } else {
        1 + ws_index(s.drop_first())
    }
}

pub proof fn lemma_ws_index_bound(s: Seq<char>)
    ensures
        0 <= ws_index(s) <= s.len(),
        s.len() > 0 && !is_ws(s[0]) ==> ws_index(s) >= 1,
        forall|j: int| 0 <= j < ws_index(s) ==> !is_ws(#[trigger] s[j]),
        ws_index(s) < s.len() ==> is_ws(s[ws_index(s)]),
    decreases s.len(),
{
    if s.len() > 0 && !is_ws(s[0]) {
        lemma_ws_index_bound(s.drop_first());
        assert forall|j: int| 0 <= j < ws_index(s) implies !is_ws(#[trigger] s[j]) by {
            if j > 0 {
                assert(s[j] == s.drop_first()[j - 1]);
            }
        }
    }
}

pub proof fn lemma_trim_start_len(s: Seq<char>)
    ensures
        trim_start(s).len() <= s.len(),
        trim_start(s).len() > 0 ==> !is_ws(trim_start(s)[0]),
    decreases s.len(),
{
    if s.len() > 0 && is_ws(s[0]) {
        lemma_trim_start_len(s.drop_first());
    }
}

/// The `n`-th whitespace-separated word of `s` (std's `split_whitespace().nth(n)`).
pub open spec fn nth_word(s: Seq<char>, n: nat) -> Option<Seq<char>>
    decreases s.len(),
{
    let t = trim_start(s);
    if t.len() == 0 {
        None
    } else {
        let e = ws_index(t);
        if n == 0 {
            Some(t.take(e))
        } else {
            proof {
                lemma_trim_start_len(s);
                lemma_ws_index_bound(t);
            }
            nth_word(t.skip(e), (n - 1) as nat)
        }
    }
}

fn trim_start_vec(s: &[char]) -> (r: Vec<char>)
    ensures
        r@ == trim_start(s@),
{
    let i = trim_start_index(s);
    sub_chars(s, i, s.len())
}

fn ws_index_of(s: &[char]) -> (r: usize)
    ensures
        r == ws_index(s@),
{
    let mut i: usize = 0;
    assert(s@.skip(0) =~= s@);
    while i < s.len() && !is_whitespace(s[i])
        invariant
            i <= s@.len(),
            ws_index(s@) == i + ws_index(s@.skip(i as int)),
        decreases s@.len() - i,
    {
        assert(s@.skip(i as int).drop_first() =~= s@.skip(i + 1));
        i = i + 1;
    }
    i
}

pub fn nth_word_of(s: &[char], n: usize) -> (r: Option<Vec<char>>)
    ensures
        match r {
            Some(w) => nth_word(s@, n as nat) == Some(w@),
            None => nth_word(s@, n as nat) is None,
        },
{
    let mut cur: Vec<char> = sub_chars(s, 0, s.len());
    let mut k: usize = n;
    assert(cur@ =~= s@);
    loop
        invariant
            nth_word(s@, n as nat) == nth_word(cur@, k as nat),
        decreases cur@.len(),
    {
        let t = trim_start_vec(cur.as_slice());
        if t.len() == 0 {
            return None;
        }
        let e = ws_index_of(t.as_slice());
        proof {
            lemma_trim_start_len(cur@);
            lemma_ws_index_bound(t@);
        }
        if k == 0 {
            return Some(sub_chars(t.as_slice(), 0, e));
        }
        let rest = sub_chars(t.as_slice(), e, t.len());
        assert(rest@ =~= t@.skip(e as int));
        cur = rest;
        k = k - 1;
    }
}

pub proof fn lemma_first_occurrence(s: Seq<char>, p: Seq<char>, i: int)
    requires
        occurs_at(s, p, i),
        forall|j: int| 0 <= j < i ==> !occurs_at(s, p, j),
    ensures
        first_occurrence(s, p) == Some(i),
{
    assert(contains(s, p));
    let k = choose|k: int| occurs_at(s, p, k) && forall|j: int| 0 <= j < k ==> !occurs_at(s, p, j);
    assert(occurs_at(s, p, k) && forall|j: int| 0 <= j < k ==> !occurs_at(s, p, j));
    if k < i {
        assert(!occurs_at(s, p, k));
    } else if k > i {
        assert(!occurs_at(s, p, i));
    }
}

/// The first occurrence is an occurrence.
pub proof fn lemma_first_occurrence_bound(s: Seq<char>, p: Seq<char>, i: int)
    requires
        first_occurrence(s, p) == Some(i),
    ensures
        occurs_at(s, p, i),
        forall|j: int| 0 <= j < i ==> !occurs_at(s, p, j),
{
    let w = choose|w: int| occurs_at(s, p, w);
    lemma_least_occurrence(s, p, w);
}

proof fn lemma_least_occurrence(s: Seq<char>, p: Seq<char>, w: int)
    requires
        occurs_at(s, p, w),
    ensures
        exists|k: int| occurs_at(s, p, k) && forall|j: int| 0 <= j < k ==> !occurs_at(s, p, j),
    decreases w,
{
    if exists|j: int| 0 <= j < w && occurs_at(s, p, j) {
        let j = choose|j: int| 0 <= j < w && occurs_at(s, p, j);
        lemma_least_occurrence(s, p, j);
    } else {
        assert(occurs_at(s, p, w) && forall|j: int| 0 <= j < w ==> !occurs_at(s, p, j));
    }
}

/// Position of the first occurrence of `p` in `s`, with its spec characterisation.
pub fn find_str(s: &[char], p: &str) -> (r: Option<usize>)
    ensures
        match r {
            Some(i) => first_occurrence(s@, p@) == Some(i as int) && i <= s@.len(),
            None => first_occurrence(s@, p@) is None,
        },
{
    let pc = chars_of(p);
    match find(s, pc.as_slice()) {
        Some(i) => {
            proof {
                lemma_first_occurrence(s@, p@, i as int);
            }
            Some(i)
        },
        None => None,
    }
}

/// Whether `s` contains `p`, as an executable check.
pub fn contains_str(s: &[char], p: &str) -> (r: bool)
    ensures
        r == contains(s@, p@),
{
    let pc = chars_of(p);
    find(s, pc.as_slice()).is_some()
}

/// Whether `s` starts with `p`, as an executable check.
pub fn starts_with_str(s: &[char], p: &str) -> (r: bool)
    ensures
        r == starts_with(s@, p@),
{
    let pc = chars_of(p);
    has_prefix(s, pc.as_slice())
}

/// Equality of a char sequence with a string.
pub fn eq_str(a: &[char], b: &str) -> (r: bool)
    ensures
        r == (a@ == b@),
{
    let bc = chars_of(b);
    if a.len() != bc.len() {
        return false;
    }
    let r = has_prefix(a, bc.as_slice());
    assert(a@ =~= a@.take(bc@.len() as int));
    r
}

/// The pieces of `s` between occurrences of `c` (std's `split(c)`).
pub open spec fn split_on(s: Seq<char>, c: char) -> Seq<Seq<char>>
    decreases s.len(),
{
    if s.contains(c) {
        let i = first_index(s, c);
        proof {
            lemma_first_index_bound(s, c);
        }
        seq![s.take(i)] + split_on(s.skip(i + 1), c)
    } else {
        seq![s]
    }
}

/// The first piece of `s` before `c`, and the text after it (if `c` occurs).
pub fn split_first(s: &[char], c: char) -> (r: (Vec<char>, Option<Vec<char>>))
    ensures
        split_on(s@, c).len() > 0,
        r.0@ == split_on(s@, c)[0],
        match r.1 {
            Some(tail) => split_on(s@, c).drop_first() == split_on(tail@, c) && tail@.len()
                < s@.len(),
            None => split_on(s@, c).drop_first().len() == 0,
        },
{
    proof {
        lemma_first_index_bound(s@, c);
    }
    match first_index_of(s, c) {
        Some(i) => {
            let n = s.len();
            let piece = sub_chars(s, 0, i);
            let tail = sub_chars(s, i + 1, n);
            assert(split_on(s@, c) == seq![s@.take(i as int)] + split_on(s@.skip(i + 1), c));
            assert(split_on(s@, c).drop_first() =~= split_on(s@.skip(i + 1), c));
            assert(tail@ =~= s@.skip(i + 1));
            assert(piece@ =~= s@.take(i as int));
            (piece, Some(tail))
        },
        None => {
            assert(s@.take(s@.len() as int) =~= s@);
            assert(split_on(s@, c).drop_first() =~= Seq::<Seq<char>>::empty());
            (sub_chars(s, 0, s.len()), None)
        },
    }
}

} // verus!
