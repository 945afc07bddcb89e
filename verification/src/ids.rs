//! Panel identity.
//!
//! A panel is named by an opaque string token such as `"panel_3"` or
//! `"footer_panel_0"`. The default grids number their panels with such
//! tokens, and a cosmetic display index is derived back from a token:
//! numbered tokens yield their number, anything else falls back to a
//! small hash bucket.

use vstd::prelude::*;

verus! {

/// Character-wise equality of two string slices.
pub fn str_eq(a: &str, b: &str) -> (r: bool)
    ensures
        r == (a@ == b@),
{
    let a_len = a.unicode_len();
    let b_len = b.unicode_len();
    if a_len != b_len {
        return false;
    }
    let mut i: usize = 0;
    while i < a_len
        invariant
            i <= a_len,
            forall|j: int| 0 <= j < i ==> a@[j] == b@[j],
        decreases a_len - i,
    {
        if a.get_char(i) != b.get_char(i) {
            return false;
        }
        i = i + 1;
    }
    proof {
        assert(a@ =~= b@);
    }
    true
}

/// Whether `s` begins with `prefix`, character for character.
pub open spec fn spec_starts_with(s: Seq<char>, prefix: Seq<char>) -> bool {
    s.len() >= prefix.len() && s.subrange(0, prefix.len() as int) == prefix
}

/// Prefix test on string slices.
pub fn starts_with(s: &str, prefix: &str) -> (r: bool)
    ensures
        r == spec_starts_with(s@, prefix@),
{
    let s_len = s.unicode_len();
    let p_len = prefix.unicode_len();
    if s_len < p_len {
        return false;
    }
    let mut i: usize = 0;
    while i < p_len
        invariant
            i <= p_len,
            forall|j: int| 0 <= j < i ==> s@[j] == prefix@[j],
        decreases p_len - i,
    {
        if s.get_char(i) != prefix.get_char(i) {
            proof {
                assert(s@.subrange(0, prefix@.len() as int)[i as int] == s@[i as int]);
            }
            return false;
        }
        i = i + 1;
    }
    proof {
        assert(s@.subrange(0, prefix@.len() as int) =~= prefix@);
    }
    true
}

/// Numeric value of a decimal digit character; 10 marks a non-digit.
pub open spec fn digit_val(c: char) -> int {
    if c == '0' {
        0
    } else if c == '1' {
        1
    } else if c == '2' {
        2
    } else if c == '3' {
        3
    } else if c == '4' {
        4
    } else if c == '5' {
        5
    } else if c == '6' {
        6
    } else if c == '7' {
        7
    } else if c == '8' {
        8
    } else if c == '9' {
        9
    } else {
        10
    }
}

pub open spec fn is_digit(c: char) -> bool {
    digit_val(c) < 10
}

/// The digit character for a value below ten.
pub open spec fn digit_char(d: int) -> char {
    if d == 0 {
        '0'
    } else if d == 1 {
        '1'
    } else if d == 2 {
        '2'
    } else if d == 3 {
        '3'
    } else if d == 4 {
        '4'
    } else if d == 5 {
        '5'
    } else if d == 6 {
        '6'
    } else if d == 7 {
        '7'
    } else if d == 8 {
        '8'
    } else {
        '9'
    }
}

/// The decimal rendering of `n`, most significant digit first.
pub open spec fn dec_seq(n: nat) -> Seq<char>
    decreases n,
{
    if n < 10 {
        seq![digit_char(n as int)]
    } else {
        dec_seq(n / 10).push(digit_char((n % 10) as int))
    }
}

/// One-character slice for a digit value.
fn digit_str(d: usize) -> (r: &'static str)
    requires
        d < 10,
    ensures
        r@ == seq![digit_char(d as int)],
{
    let r: &'static str = match d {
        0 => "0",
        1 => "1",
        2 => "2",
        3 => "3",
        4 => "4",
        5 => "5",
        6 => "6",
        7 => "7",
        8 => "8",
        _ => "9",
    };
    proof {
        reveal_strlit("0");
        reveal_strlit("1");
        reveal_strlit("2");
        reveal_strlit("3");
        reveal_strlit("4");
        reveal_strlit("5");
        reveal_strlit("6");
        reveal_strlit("7");
        reveal_strlit("8");
        reveal_strlit("9");
        assert(r@ =~= seq![digit_char(d as int)]);
    }
    r
}

/// Decimal rendering of `n` as an owned string.
pub fn dec_string(n: usize) -> (r: String)
    ensures
        r@ == dec_seq(n as nat),
    decreases n,
{
    if n < 10 {
        String::from_str(digit_str(n))
    } else {
        let mut s = dec_string(n / 10);
        s.append(digit_str(n % 10));
        proof {
            assert(s@ =~= dec_seq((n / 10) as nat).push(digit_char((n % 10) as int)));
        }
        s
    }
}

/// Decimal rendering evaluates back to the number it was made from.
pub proof fn lemma_dec_seq_val(n: nat)
    ensures
        dec_seq(n).len() >= 1,
        all_digits(dec_seq(n)),
        digits_val(dec_seq(n)) == n,
    decreases n,
{
    if n < 10 {
        assert(dec_seq(n) =~= seq![digit_char(n as int)]);
        assert(dec_seq(n).drop_last() =~= Seq::<char>::empty());
        assert(digit_val(digit_char(n as int)) == n) by {
            if n == 0 {
            } else if n == 1 {
            } else if n == 2 {
            } else if n == 3 {
            } else if n == 4 {
            } else if n == 5 {
            } else if n == 6 {
            } else if n == 7 {
            } else if n == 8 {
            } else {
            }
        }
        assert(digits_val(dec_seq(n)) == digits_val(Seq::<char>::empty()) * 10 + digit_val(
            dec_seq(n).last(),
        ));
    } else {
        lemma_dec_seq_val(n / 10);
        let s = dec_seq(n);
        assert(s.drop_last() =~= dec_seq(n / 10));
        assert forall|j: int| 0 <= j < s.len() implies is_digit(s[j]) by {
            if j < s.len() - 1 {
                assert(s[j] == dec_seq(n / 10)[j]);
            }
        }
    }
}

/// Two differently numbered tokens with the same prefix differ.
pub proof fn lemma_numbered_id_injective(prefix: Seq<char>, i: nat, j: nat)
    requires
        i != j,
    ensures
        prefix + dec_seq(i) != prefix + dec_seq(j),
{
    if prefix + dec_seq(i) == prefix + dec_seq(j) {
        let p = prefix.len() as int;
        lemma_dec_seq_val(i);
        lemma_dec_seq_val(j);
        assert((prefix + dec_seq(i)).skip(p) =~= dec_seq(i));
        assert((prefix + dec_seq(j)).skip(p) =~= dec_seq(j));
        assert(digits_val(dec_seq(i)) == digits_val(dec_seq(j)));
    }
}

/// The token that names main-grid panel number `i`.
pub open spec fn panel_id_seq(i: nat) -> Seq<char> {
    "panel_"@ + dec_seq(i)
}

/// The token that names footer panel number `i`.
pub open spec fn footer_panel_id_seq(i: nat) -> Seq<char> {
    "footer_panel_"@ + dec_seq(i)
}

/// Builds the `panel_N` token for index `i`.
pub fn panel_id_string(i: usize) -> (r: String)
    ensures
        r@ == panel_id_seq(i as nat),
{
    let mut s = String::from_str("panel_");
    let digits = dec_string(i);
    s.append(digits.as_str());
    s
}

/// Builds the `footer_panel_N` token for index `i`.
pub fn footer_panel_id_string(i: usize) -> (r: String)
    ensures
        r@ == footer_panel_id_seq(i as nat),
{
    let mut s = String::from_str("footer_panel_");
    let digits = dec_string(i);
    s.append(digits.as_str());
    s
}

/// Whether every character of `s` is a decimal digit.
pub open spec fn all_digits(s: Seq<char>) -> bool {
    forall|j: int| 0 <= j < s.len() ==> is_digit(s[j])
}

/// The number a digit sequence denotes, most significant digit first.
pub open spec fn digits_val(s: Seq<char>) -> int
    decreases s.len(),
{
    if s.len() == 0 {
        0
    } else {
        digits_val(s.drop_last()) * 10 + digit_val(s.last())
    }
}

pub proof fn lemma_digits_val_nonneg(s: Seq<char>)
    requires
        all_digits(s),
    ensures
        digits_val(s) >= 0,
    decreases s.len(),
{
    if s.len() > 0 {
        assert(all_digits(s.drop_last()));
        lemma_digits_val_nonneg(s.drop_last());
    }
}

/// A digit sequence is worth at least any of its prefixes.
pub proof fn lemma_digits_val_prefix_le(s: Seq<char>, k: int)
    requires
        all_digits(s),
        0 <= k <= s.len(),
    ensures
        digits_val(s.subrange(0, k)) <= digits_val(s),
    decreases s.len() - k,
{
    if k == s.len() {
        assert(s.subrange(0, k) =~= s);
    } else {
        lemma_digits_val_prefix_le(s, k + 1);
        let shorter = s.subrange(0, k);
        let longer = s.subrange(0, k + 1);
        assert(longer.drop_last() =~= shorter);
        assert(longer.last() == s[k]);
        assert(all_digits(shorter));
        lemma_digits_val_nonneg(shorter);
    }
}

/// Parses the decimal suffix of `s` that begins at character `from`.
///
/// Returns the denoted number when the suffix is non-empty, all digits,
/// and fits in `usize`; `None` otherwise.
pub fn parse_digits_from(s: &str, from: usize) -> (r: Option<usize>)
    requires
        from <= s@.len(),
    ensures
        ({
            let suf = s@.skip(from as int);
            match r {
                Some(v) => suf.len() > 0 && all_digits(suf) && v == digits_val(suf),
                None => !(suf.len() > 0 && all_digits(suf) && digits_val(suf) <= usize::MAX),
            }
        }),
{
    let ghost suf = s@.skip(from as int);
    let len = s.unicode_len();
    if from >= len {
        return None;
    }
    let mut val: usize = 0;
    let mut i: usize = from;
    while i < len
        invariant
            from <= i <= len,
            all_digits(s@.subrange(from as int, i as int)),
            val == digits_val(s@.subrange(from as int, i as int)),
        decreases len - i,
    {
        let c = s.get_char(i);
        let d: usize = match c {
            '0' => 0,
            '1' => 1,
            '2' => 2,
            '3' => 3,
            '4' => 4,
            '5' => 5,
            '6' => 6,
            '7' => 7,
            '8' => 8,
            '9' => 9,
            _ => 10,
        };
        if d >= 10 {
            proof {
                assert(suf[i - from] == s@[i as int]);
                assert(!is_digit(suf[i - from]));
            }
            return None;
        }
        let ghost done = s@.subrange(from as int, i as int);
        let ghost next = s@.subrange(from as int, i + 1 as int);
        proof {
            assert(next.drop_last() =~= done);
            assert(next.last() == s@[i as int]);
        }
        if val > (usize::MAX - d) / 10 {
            proof {
                assert(forall|j: int| 0 <= j < suf.len() ==> suf[j] == s@[from + j]);
                if all_digits(suf) {
                    assert(next =~= suf.subrange(0, i + 1 - from));
                    assert(all_digits(next));
                    lemma_digits_val_nonneg(done);
                    assert(digits_val(next) == val * 10 + d);
                    assert(val * 10 + d > usize::MAX) by (nonlinear_arith)
                        requires
                            val > (usize::MAX - d) / 10,
                            0 <= d < 10,
                            val >= 0,
                    ;
                    lemma_digits_val_prefix_le(suf, i + 1 - from);
                }
            }
            return None;
        }
        proof {
            assert(val * 10 + d <= usize::MAX) by (nonlinear_arith)
                requires
                    val <= (usize::MAX - d) / 10,
                    0 <= d < 10,
                    val >= 0,
            ;
            assert(all_digits(next));
        }
        val = val * 10 + d;
        i = i + 1;
    }
    proof {
        assert(s@.subrange(from as int, len as int) =~= suf);
    }
    Some(val)
}

/// The fallback bucket hash over a token's characters: a base-31 fold,
/// wrapping at sixty-four bits.
pub open spec fn id_hash(s: Seq<char>) -> nat
    decreases s.len(),
{
    if s.len() == 0 {
        0nat
    } else {
        ((id_hash(s.drop_last()) * 31 + (s.last() as u32)) % 0x1_0000_0000_0000_0000) as nat
    }
}

/// Computes `id_hash` of a string slice.
fn hash_of_str(s: &str) -> (r: u64)
    ensures
        r == id_hash(s@),
{
    let len = s.unicode_len();
    let mut h: u64 = 0;
    let mut i: usize = 0;
    while i < len
        invariant
            i <= len,
            h == id_hash(s@.subrange(0, i as int)),
        decreases len - i,
    {
        let c = s.get_char(i);
        let wide: u128 = (h as u128) * 31 + (c as u32) as u128;
        let next: u64 = (wide % 0x1_0000_0000_0000_0000) as u64;
        proof {
            let pre = s@.subrange(0, i as int);
            let cur = s@.subrange(0, i + 1 as int);
            assert(cur.drop_last() =~= pre);
            assert(cur.last() == s@[i as int]);
        }
        h = next;
        i = i + 1;
    }
    proof {
        assert(s@.subrange(0, len as int) =~= s@);
    }
    h
}

/// The display index derived from a token: the number of a
/// `<prefix>N` token, else the hash bucket below `modulus`.
pub open spec fn spec_index_from_id(id: Seq<char>, prefix: Seq<char>, modulus: int) -> int {
    let suf = id.skip(prefix.len() as int);
    if spec_starts_with(id, prefix) && suf.len() > 0 && all_digits(suf) && digits_val(suf)
        <= usize::MAX {
        digits_val(suf)
    } else {
        (id_hash(id) as int) % modulus
    }
}

/// Derives a display index from a token against an expected prefix.
fn index_from_id(id: &str, prefix: &str, modulus: u64) -> (r: usize)
    requires
        0 < modulus <= 0x1000,
    ensures
        r == spec_index_from_id(id@, prefix@, modulus as int),
{
    if starts_with(id, prefix) {
        let p_len = prefix.unicode_len();
        if let Some(v) = parse_digits_from(id, p_len) {
            return v;
        }
    }
    let h = hash_of_str(id);
    let bucket = h % modulus;
    bucket as usize
}

/// Display index of a main-grid token: `panel_N` yields `N`,
/// anything else one of nine hash buckets.
pub fn panel_index_from_id(id: &str) -> (r: usize)
    ensures
        r == spec_index_from_id(id@, "panel_"@, 9),
{
    index_from_id(id, "panel_", 9)
}

/// Display index of a footer token: `footer_panel_N` yields `N`,
/// anything else one of seven hash buckets.
pub fn footer_panel_index_from_id(id: &str) -> (r: usize)
    ensures
        r == spec_index_from_id(id@, "footer_panel_"@, 7),
{
    index_from_id(id, "footer_panel_", 7)
}

} // verus!
