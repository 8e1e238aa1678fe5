//! Character-level text utilities: conversions between strings and
//! character vectors, whitespace trimming, decimal parsing and
//! rendering, and the preview truncation helpers.

use vstd::prelude::*;
use vstd::std_specs::iter::IteratorSpec;

verus! {

broadcast use vstd::string::group_string_axioms;

/// A character with the Unicode `White_Space` property (the set
/// `char::is_whitespace` recognises).
pub open spec fn is_space(c: char) -> bool {
    c == ' ' || c == '\t' || c == '\n' || c == '\u{B}' || c == '\u{C}' || c == '\r' || c
        == '\u{85}' || c == '\u{A0}' || c == '\u{1680}' || ('\u{2000}' <= c && c <= '\u{200A}') || c
        == '\u{2028}' || c == '\u{2029}' || c == '\u{202F}' || c == '\u{205F}' || c == '\u{3000}'
}

/// Executable form of [`is_space`].
pub fn char_is_space(c: char) -> (r: bool)
    ensures
        r == is_space(c),
{
    c == ' ' || c == '\t' || c == '\n' || c == '\u{B}' || c == '\u{C}' || c == '\r' || c
        == '\u{85}' || c == '\u{A0}' || c == '\u{1680}' || ('\u{2000}' <= c && c <= '\u{200A}') || c
        == '\u{2028}' || c == '\u{2029}' || c == '\u{202F}' || c == '\u{205F}' || c == '\u{3000}'
}

/// An ASCII whitespace byte (the set `u8::is_ascii_whitespace`
/// recognises: space, tab, newline, form feed, carriage return).
pub open spec fn is_ascii_space(b: u8) -> bool {
    b == 32 || b == 9 || b == 10 || b == 12 || b == 13
}

/// Whether every byte of `s` is ASCII whitespace.
pub open spec fn all_ascii_space(s: Seq<u8>) -> bool {
    forall|i: int| 0 <= i < s.len() ==> is_ascii_space(#[trigger] s[i])
}

/// Executable check of [`all_ascii_space`].
pub fn bytes_all_whitespace(data: &[u8]) -> (r: bool)
    ensures
        r == all_ascii_space(data@),
{
    let mut i: usize = 0;
    while i < data.len()
        invariant
            i <= data@.len(),
            forall|k: int| 0 <= k < i ==> is_ascii_space(#[trigger] data@[k]),
        decreases data@.len() - i,
    {
        let b = data[i];
        if !(b == 32 || b == 9 || b == 10 || b == 12 || b == 13) {
            return false;
        }
        i = i + 1;
    }
    true
}

/// The characters of `s`, in order.
pub fn str_chars(s: &str) -> (r: Vec<char>)
    ensures
        r@ == s@,
{
    let mut it = s.chars();
    let mut out: Vec<char> = Vec::new();
    loop
        invariant
            it.obeys_prophetic_iter_laws(),
            it.decrease() is Some,
            out@ + it.remaining() == s@,
        decreases it.decrease()->0,
    {
        match it.next() {
            Some(c) => out.push(c),
            None => {
                proof {
                    assert(out@ =~= s@);
                }
                return out;
            },
        }
    }
}

/// Relies on `Iterator::collect` for `String`: rebuilding a string from
/// its characters.
#[verifier::external_body]
pub fn string_from_chars(v: &Vec<char>) -> (r: String)
    ensures
        r@ == v@,
{
    v.iter().collect()
}

/// `s` without leading whitespace.
pub open spec fn trim_front(s: Seq<char>) -> Seq<char>
    decreases s.len(),
{
    if s.len() > 0 && is_space(s[0]) {
        trim_front(s.skip(1))
    } else {
        s
    }
}

/// `s` without trailing whitespace.
pub open spec fn trim_back(s: Seq<char>) -> Seq<char>
    decreases s.len(),
{
    if s.len() > 0 && is_space(s.last()) {
        trim_back(s.drop_last())
    } else {
        s
    }
}

/// `s` without leading or trailing whitespace.
pub open spec fn trim_spec(s: Seq<char>) -> Seq<char> {
    trim_back(trim_front(s))
}

proof fn lemma_trim_front_range(s: Seq<char>)
    ensures
        exists|k: int|
            0 <= k <= s.len() && trim_front(s) == s.skip(k) && (forall|i: int|
                0 <= i < k ==> is_space(s[i])) && (k < s.len() ==> !is_space(s[k])),
    decreases s.len(),
{
    if s.len() > 0 && is_space(s[0]) {
        lemma_trim_front_range(s.skip(1));
        let k0 = choose|k: int|
            0 <= k <= s.skip(1).len() && trim_front(s.skip(1)) == s.skip(1).skip(k) && (forall|
                i: int,
            |
                0 <= i < k ==> is_space(s.skip(1)[i])) && (k < s.skip(1).len() ==> !is_space(
                s.skip(1)[k],
            ));
        assert(s.skip(1).skip(k0) =~= s.skip(k0 + 1));
        assert(forall|i: int| 0 <= i < k0 + 1 ==> is_space(s[i])) by {
            assert(forall|i: int| 1 <= i < k0 + 1 ==> s[i] == s.skip(1)[i - 1]);
        }
        assert(0 <= k0 + 1 <= s.len() && trim_front(s) == s.skip(k0 + 1) && (forall|i: int|
            0 <= i < k0 + 1 ==> is_space(s[i])) && (k0 + 1 < s.len() ==> !is_space(s[k0 + 1])));
    } else {
        assert(s.skip(0) =~= s);
        assert(0 <= 0 <= s.len() && trim_front(s) == s.skip(0) && (forall|i: int|
            0 <= i < 0 ==> is_space(s[i])) && (0 < s.len() ==> !is_space(s[0])));
    }
}

proof fn lemma_trim_back_range(s: Seq<char>)
    ensures
        exists|k: int|
            0 <= k <= s.len() && trim_back(s) == s.take(k) && (forall|i: int|
                k <= i < s.len() ==> is_space(s[i])) && (k > 0 ==> !is_space(s[k - 1])),
    decreases s.len(),
{
    if s.len() > 0 && is_space(s.last()) {
        lemma_trim_back_range(s.drop_last());
        let k0 = choose|k: int|
            0 <= k <= s.drop_last().len() && trim_back(s.drop_last()) == s.drop_last().take(k) && (
            forall|i: int| k <= i < s.drop_last().len() ==> is_space(s.drop_last()[i])) && (k > 0
                ==> !is_space(s.drop_last()[k - 1]));
        assert(s.drop_last().take(k0) =~= s.take(k0));
        assert(forall|i: int| 0 <= i < s.len() - 1 ==> s.drop_last()[i] == s[i]);
        assert(s.last() == s[s.len() - 1]);
        assert(0 <= k0 <= s.len() && trim_back(s) == s.take(k0) && (forall|i: int|
            k0 <= i < s.len() ==> is_space(s[i])) && (k0 > 0 ==> !is_space(s[k0 - 1])));
    } else {
        assert(s.take(s.len() as int) =~= s);
        let k = s.len() as int;
        assert(0 <= k <= s.len() && trim_back(s) == s.take(k) && (forall|i: int|
            k <= i < s.len() ==> is_space(s[i])) && (k > 0 ==> !is_space(s[k - 1])));
    }
}

/// The trimmed view of a character vector.
pub fn trim_chars(v: &Vec<char>) -> (r: Vec<char>)
    ensures
        r@ == trim_spec(v@),
{
    let ghost s = v@;
    let mut lo: usize = 0;
    while lo < v.len() && char_is_space(v[lo])
        invariant
            0 <= lo <= v@.len(),
            v@ == s,
            forall|i: int| 0 <= i < lo ==> is_space(s[i]),
        decreases v@.len() - lo,
    {
        lo = lo + 1;
    }
    let mut hi: usize = v.len();
    while hi > lo && char_is_space(v[hi - 1])
        invariant
            lo <= hi <= v@.len(),
            v@ == s,
            forall|i: int| 0 <= i < lo ==> is_space(s[i]),
            lo < v@.len() ==> !is_space(s[lo as int]),
            forall|i: int| hi <= i < s.len() ==> is_space(s[i]),
        decreases hi,
    {
        hi = hi - 1;
    }
    let mut out: Vec<char> = Vec::new();
    let mut i: usize = lo;
    while i < hi
        invariant
            lo <= i <= hi <= v@.len(),
            v@ == s,
            out@ == s.subrange(lo as int, i as int),
        decreases hi - i,
    {
        out.push(v[i]);
        proof {
            assert(out@ =~= s.subrange(lo as int, i + 1));
        }
        i = i + 1;
    }
    proof {
        lemma_trim_front_range(s);
        let kf = choose|k: int|
            0 <= k <= s.len() && trim_front(s) == s.skip(k) && (forall|i: int|
                0 <= i < k ==> is_space(s[i])) && (k < s.len() ==> !is_space(s[k]));
        assert(kf == lo) by {
            if kf < lo {
                assert(is_space(s[kf]));
            }
            if kf > lo {
                assert(is_space(s[lo as int]));
            }
        }
        let t = s.skip(lo as int);
        lemma_trim_back_range(t);
        let kb = choose|k: int|
            0 <= k <= t.len() && trim_back(t) == t.take(k) && (forall|i: int|
                k <= i < t.len() ==> is_space(t[i])) && (k > 0 ==> !is_space(t[k - 1]));
        assert(forall|i: int| 0 <= i < t.len() ==> t[i] == s[lo + i]);
        assert(kb == hi - lo) by {
            if kb < hi - lo {
                assert(!is_space(s[(hi - 1) as int]));
                assert(is_space(t[hi - lo - 1]));
            }
            if kb > hi - lo {
                assert(is_space(t[kb - 1]));
                assert(!is_space(t[kb - 1]));
            }
        }
        assert(out@ =~= t.take(kb));
    }
    out
}

/// A decimal digit.
pub open spec fn is_digit(c: char) -> bool {
    '0' <= c && c <= '9'
}

/// The numeric value of a decimal digit.
pub open spec fn digit_val(c: char) -> nat {
    (c as u32 - 48) as nat
}

/// Every character of `s` is a decimal digit.
pub open spec fn all_digits(s: Seq<char>) -> bool {
    forall|i: int| 0 <= i < s.len() ==> is_digit(#[trigger] s[i])
}

/// The number a digit string denotes.
pub open spec fn digits_val(s: Seq<char>) -> nat
    decreases s.len(),
{
    if s.len() == 0 {
        0
    } else {
        digits_val(s.drop_last()) * 10 + digit_val(s.last())
    }
}

/// `s` with one optional leading plus sign removed.
pub open spec fn strip_plus(s: Seq<char>) -> Seq<char> {
    if s.len() > 0 && s[0] == '+' {
        s.skip(1)
    } else {
        s
    }
}

/// `s` is a decimal rendering (optional leading plus) of a number that
/// fits in 64 bits.
pub open spec fn u64_parse_ok(s: Seq<char>) -> bool {
    let d = strip_plus(s);
    d.len() > 0 && all_digits(d) && digits_val(d) <= u64::MAX
}

/// The number `s` denotes.
pub open spec fn u64_parse_val(s: Seq<char>) -> nat {
    digits_val(strip_plus(s))
}

proof fn lemma_digits_prefix_le(d: Seq<char>, j: int)
    requires
        0 <= j <= d.len(),
    ensures
        digits_val(d.take(j)) <= digits_val(d),
    decreases d.len() - j,
{
    if j < d.len() {
        assert(d.take(j + 1).drop_last() =~= d.take(j));
        assert(digits_val(d.take(j + 1)) == digits_val(d.take(j)) * 10 + digit_val(d.take(j + 1).last()));
        lemma_digits_prefix_le(d, j + 1);
    } else {
        assert(d.take(j) =~= d);
    }
}

/// Parse a character vector as a decimal 64-bit number, as the store's
/// identity fields are written: optional leading plus, then digits.
pub fn parse_u64_chars(v: &Vec<char>) -> (r: Option<u64>)
    ensures
        r is Some <==> u64_parse_ok(v@),
        r matches Some(n) ==> n as nat == u64_parse_val(v@),
{
    let mut i: usize = 0;
    if v.len() > 0 && v[0] == '+' {
        i = 1;
    }
    let ghost d = strip_plus(v@);
    let ghost off = i as int;
    proof {
        assert(d =~= v@.skip(off));
    }
    if i >= v.len() {
        return None;
    }
    let mut acc: u64 = 0;
    while i < v.len()
        invariant
            off <= i <= v@.len(),
            off == if v@.len() > 0 && v@[0] == '+' { 1int } else { 0int },
            d == v@.skip(off),
            v@.len() > off,
            all_digits(d.take(i - off)),
            acc as nat == digits_val(d.take(i - off)),
        decreases v@.len() - i,
    {
        let c = v[i];
        if !(c >= '0' && c <= '9') {
            proof {
                assert(d[i - off] == v@[i as int]);
                assert(!is_digit(d[i - off]));
            }
            return None;
        }
        let dv = (c as u32 - 48) as u64;
        proof {
            assert(d.take(i - off + 1).drop_last() =~= d.take(i - off));
            assert(d.take(i - off + 1).last() == v@[i as int]);
            assert(all_digits(d.take(i - off + 1)));
            assert(digit_val(c) == dv as nat);
            assert(digits_val(d.take(i - off + 1)) == (acc as nat) * 10 + dv as nat);
        }
        let step = match acc.checked_mul(10) {
            Some(x) => x.checked_add(dv),
            None => None,
        };
        match step {
            Some(y) => {
                acc = y;
            },
            None => {
                proof {
                    assert(digits_val(d.take(i - off + 1)) > u64::MAX);
                    lemma_digits_prefix_le(d, i - off + 1);
                    assert(strip_plus(v@) == d);
                    assert(digits_val(strip_plus(v@)) > u64::MAX);
                }
                return None;
            },
        }
        i = i + 1;
    }
    proof {
        assert(d.take(v@.len() - off) =~= d);
    }
    Some(acc)
}

/// The decimal rendering of a number.
pub open spec fn dec_str(n: nat) -> Seq<char>
    decreases n,
{
    if n < 10 {
        seq![((48 + n) as u8) as char]
    } else {
        dec_str(n / 10).push(((48 + n % 10) as u8) as char)
    }
}

/// `s` reversed.
pub open spec fn rseq(s: Seq<char>) -> Seq<char> {
    Seq::new(s.len(), |i: int| s[s.len() - 1 - i])
}

/// Render a 64-bit number in decimal.
pub fn u64_to_dec_chars(n: u64) -> (r: Vec<char>)
    ensures
        r@ == dec_str(n as nat),
{
    let ghost orig = n as nat;
    let mut m: u64 = n;
    let mut rev: Vec<char> = Vec::new();
    loop
        invariant_except_break
            m as nat != 0 ==> dec_str(orig) == dec_str(m as nat) + rseq(rev@),
            m as nat == 0 ==> rev@.len() == 0 && orig == 0,
        ensures
            dec_str(orig) == rseq(rev@),
        decreases m,
    {
        let digit = ((m % 10) as u8 + 48) as char;
        let ghost old_rev = rev@;
        let ghost old_m = m as nat;
        rev.push(digit);
        m = m / 10;
        proof {
            assert(rseq(old_rev.push(digit)) =~= seq![digit] + rseq(old_rev));
            if old_m < 10 {
                assert(dec_str(old_m) == seq![((48 + old_m) as u8) as char]);
                assert(seq![digit] =~= dec_str(old_m));
                if old_m == 0 {
                    assert(old_rev =~= Seq::<char>::empty());
                    assert(dec_str(orig) =~= seq![digit] + rseq(old_rev));
                } else {
                    assert(dec_str(orig) == dec_str(old_m) + rseq(old_rev));
                }
                assert(dec_str(orig) == rseq(rev@));
            } else {
                assert(dec_str(old_m) == dec_str(old_m / 10).push(
                    ((48 + old_m % 10) as u8) as char,
                ));
                assert(dec_str(old_m / 10) + (seq![digit] + rseq(old_rev)) =~= dec_str(old_m)
                    + rseq(old_rev));
                assert(dec_str(orig) == dec_str(m as nat) + rseq(rev@));
            }
        }
        if m == 0 {
            break;
        }
    }
    let mut out: Vec<char> = Vec::new();
    let mut j: usize = rev.len();
    while j > 0
        invariant
            0 <= j <= rev@.len(),
            out@ =~= rseq(rev@).take(rev@.len() - j),
        decreases j,
    {
        out.push(rev[j - 1]);
        proof {
            assert(out@ =~= rseq(rev@).take(rev@.len() - (j - 1)));
        }
        j = j - 1;
    }
    proof {
        assert(rseq(rev@).take(rev@.len() as int) =~= rseq(rev@));
    }
    out
}

/// Render a 64-bit number as a string.
pub fn u64_to_string(n: u64) -> (r: String)
    ensures
        r@ == dec_str(n as nat),
{
    let chars = u64_to_dec_chars(n);
    string_from_chars(&chars)
}

/// What truncation produces: at most `max` characters, a marker appended
/// when anything was cut.
pub open spec fn truncate_spec(s: Seq<char>, max: nat, marker: Seq<char>) -> Seq<char> {
    if s.len() > max {
        s.take(max as int) + marker
    } else {
        s
    }
}

/// Truncate `s` to a budget of `max` characters, appending `ellip` when
/// anything was cut.
pub fn truncate(s: &str, max: usize, ellip: &str) -> (r: String)
    ensures
        r@ == truncate_spec(s@, max as nat, ellip@),
{
    let chars = str_chars(s);
    if chars.len() > max {
        let mut head: Vec<char> = Vec::new();
        let mut i: usize = 0;
        while i < max
            invariant
                max < chars@.len(),
                chars@ == s@,
                0 <= i <= max,
                head@ == s@.take(i as int),
            decreases max - i,
        {
            head.push(chars[i]);
            proof {
                assert(head@ =~= s@.take(i + 1));
            }
            i = i + 1;
        }
        let mut out = string_from_chars(&head);
        out.append(ellip);
        out
    } else {
        string_from_chars(&chars)
    }
}

/// Division rounded to the nearest integer, ties to even (the rounding
/// decimal formatting applies).
pub open spec fn round_half_even(num: nat, den: nat) -> nat {
    let q = num / den;
    let r = num % den;
    if 2 * r > den {
        q + 1
    } else if 2 * r < den {
        q
    } else if q % 2 == 0 {
        q
    } else {
        q + 1
    }
}

/// What a size caption shows: the size scaled to bytes, kibibytes or
/// mebibytes (clamped to the 32-bit range first, as the display never
/// needs more).
pub open spec fn size_str_spec(size: nat) -> Seq<char> {
    let s = if size > u32::MAX { u32::MAX as nat } else { size };
    if s < 1024 {
        dec_str(s) + " B"@
    } else if s < 1048576 {
        dec_str(round_half_even(s, 1024)) + " KiB"@
    } else {
        dec_str(round_half_even(s, 1048576)) + " MiB"@
    }
}

fn div_round_half_even(num: u64, den: u64) -> (r: u64)
    requires
        den == 1024 || den == 1048576,
        num <= u32::MAX,
    ensures
        r as nat == round_half_even(num as nat, den as nat),
{
    let q = num / den;
    let rem = num % den;
    if 2 * rem > den {
        q + 1
    } else if 2 * rem < den {
        q
    } else if q % 2 == 0 {
        q
    } else {
        q + 1
    }
}

/// A human-readable caption for an entry's size in bytes.
pub fn size_str(size: usize) -> (r: String)
    ensures
        r@ == size_str_spec(size as nat),
{
    let clamped: u64 = if size > u32::MAX as usize {
        u32::MAX as u64
    } else {
        size as u64
    };
    if clamped < 1024 {
        let mut out = u64_to_string(clamped);
        out.append(" B");
        out
    } else if clamped < 1048576 {
        let mut out = u64_to_string(div_round_half_even(clamped, 1024));
        out.append(" KiB");
        out
    } else {
        let mut out = u64_to_string(div_round_half_even(clamped, 1048576));
        out.append(" MiB");
        out
    }
}

/// The prefix of `s` up to (not including) its first tab.
pub open spec fn tab_field(s: Seq<char>) -> Seq<char>
    decreases s.len(),
{
    if s.len() == 0 {
        s
    } else if s[0] == '\t' {
        Seq::empty()
    } else {
        seq![s[0]] + tab_field(s.skip(1))
    }
}

pub proof fn lemma_tab_field(s: Seq<char>, k: int)
    requires
        0 <= k <= s.len(),
        forall|i: int| 0 <= i < k ==> s[i] != '\t',
        k < s.len() ==> s[k] == '\t',
    ensures
        tab_field(s) == s.take(k),
    decreases k,
{
    if k == 0 {
        assert(tab_field(s) =~= s.take(0));
    } else {
        lemma_tab_field(s.skip(1), k - 1);
        assert(forall|i: int| 0 <= i < k - 1 ==> s.skip(1)[i] == s[i + 1]);
        assert(seq![s[0]] + s.skip(1).take(k - 1) =~= s.take(k));
    }
}

/// Index of the first tab in `s` (its length when there is none).
pub open spec fn tab_pos(s: Seq<char>) -> nat
    decreases s.len(),
{
    if s.len() == 0 {
        0
    } else if s[0] == '\t' {
        0
    } else {
        1 + tab_pos(s.skip(1))
    }
}

pub proof fn lemma_tab_pos(s: Seq<char>, k: int)
    requires
        0 <= k <= s.len(),
        forall|i: int| 0 <= i < k ==> s[i] != '\t',
        k < s.len() ==> s[k] == '\t',
    ensures
        tab_pos(s) == k,
    decreases k,
{
    if k > 0 {
        lemma_tab_pos(s.skip(1), k - 1);
        assert(forall|i: int| 0 <= i < k - 1 ==> s.skip(1)[i] == s[i + 1]);
    }
}

/// Resolve an identity from a listed line: the first tab-delimited field
/// parsed as a decimal number.
pub fn extract_id(input: &str) -> (r: Result<u64, &'static str>)
    ensures
        r is Ok <==> u64_parse_ok(tab_field(input@)),
        r matches Ok(n) ==> n as nat == u64_parse_val(tab_field(input@)),
{
    let chars = str_chars(input);
    let mut k: usize = 0;
    while k < chars.len() && chars[k] != '\t'
        invariant
            0 <= k <= chars@.len(),
            chars@ == input@,
            forall|i: int| 0 <= i < k ==> input@[i] != '\t',
        decreases chars@.len() - k,
    {
        k = k + 1;
    }
    proof {
        lemma_tab_field(input@, k as int);
    }
    let mut field: Vec<char> = Vec::new();
    let mut i: usize = 0;
    while i < k
        invariant
            0 <= i <= k <= chars@.len(),
            chars@ == input@,
            field@ == input@.take(k as int).take(i as int),
        decreases k - i,
    {
        field.push(chars[i]);
        proof {
            assert(field@ =~= input@.take(k as int).take(i + 1));
        }
        i = i + 1;
    }
    proof {
        assert(input@.take(k as int).take(k as int) =~= input@.take(k as int));
    }
    match parse_u64_chars(&field) {
        Some(n) => Ok(n),
        None => Err("invalid id"),
    }
}

} // verus!
