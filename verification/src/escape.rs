//! Reversible identifier mangling: arbitrary text is encoded into the
//! character set of C identifiers (ASCII letters and digits), every other
//! code point becoming the literal escape `_X<hex>_`.  Decoding is the left
//! inverse of encoding; a hex payload that does not decode to a valid code
//! point degrades to literal passthrough rather than failing.

use vstd::prelude::*;

verus! {

/// Characters that pass through the mangler unchanged: ASCII letters and digits.
pub open spec fn is_c_alnum(c: char) -> bool {
    ('a' <= c && c <= 'z') || ('A' <= c && c <= 'Z') || ('0' <= c && c <= '9')
}

/// The uppercase hexadecimal digit for a value in 0..16.
pub open spec fn hex_digit_char(n: int) -> char
    recommends
        0 <= n < 16,
{
    if n < 10 {
        (('0' as int) + n) as char
    } else {
        (('A' as int) + (n - 10)) as char
    }
}

/// Uppercase hexadecimal spelling of `n`, without leading zeros (`0` spells `"0"`).
pub open spec fn hex_str(n: nat) -> Seq<char>
    decreases n,
{
    if n < 16 {
        seq![hex_digit_char(n as int)]
    } else {
        hex_str(n / 16).push(hex_digit_char((n % 16) as int))
    }
}

/// The encoding of one character: ASCII letters and digits pass through,
/// everything else becomes `_X<hex-codepoint>_`.
pub open spec fn mangle_char(c: char) -> Seq<char> {
    if is_c_alnum(c) {
        seq![c]
    } else {
        seq!['_', 'X'] + hex_str(c as nat) + seq!['_']
    }
}

/// The encoding of a whole string: each character encoded in order.
pub open spec fn mangle_chars(s: Seq<char>) -> Seq<char>
    decreases s.len(),
{
    if s.len() == 0 {
        Seq::empty()
    } else {
        mangle_char(s[0]) + mangle_chars(s.drop_first())
    }
}

/// The separator between the mangled module name and the mangled bare name.
pub open spec fn mm_sep() -> Seq<char> {
    seq!['_', 'M', 'M', '_']
}

/// A module-qualified mangled identifier: mangled module, separator, mangled name.
pub open spec fn mangle_qualified(m: Seq<char>, s: Seq<char>) -> Seq<char> {
    mangle_chars(m) + mm_sep() + mangle_chars(s)
}

/// Appends one character to a `String`.
/// Relies on `String::push`: appends exactly the given character.
#[verifier::external_body]
pub(crate) fn push_char(out: &mut String, c: char)
    ensures
        final(out)@ == old(out)@.push(c),
{
    out.push(c);
}

/// Appends the uppercase hexadecimal spelling of `n` to `out`.
fn push_hex(out: &mut String, n: u32)
    ensures
        final(out)@ == old(out)@ + hex_str(n as nat),
    decreases n,
{
    if n >= 16 {
        push_hex(out, n / 16);
    }
    let d: u32 = n % 16;
    let c: char = if d < 10 {
        (48u8 + (d as u8)) as char
    } else {
        (65u8 + ((d as u8) - 10)) as char
    };
    assert(c == hex_digit_char(d as int));
    push_char(out, c);
    proof {
        if n < 16 {
            assert(hex_str(n as nat) == seq![hex_digit_char(n as int)]);
            assert(final(out)@ =~= old(out)@ + hex_str(n as nat));
        } else {
            assert(hex_str(n as nat) == hex_str((n / 16) as nat).push(hex_digit_char((n % 16) as int)));
            assert(final(out)@ =~= old(out)@ + hex_str(n as nat));
        }
    }
}

/// Encodes `s` as a C identifier fragment: ASCII letters and digits pass
/// through, every other character becomes `_X<hex-codepoint>_`.
pub fn _string_to_escape_to_c_ansi_id(s: &str) -> (r: String)
    ensures
        r@ == mangle_chars(s@),
{
    let n = s.unicode_len();
    let mut out = String::new();
    let mut i: usize = 0;
    while i < n
        invariant
            n == s@.len(),
            0 <= i <= n,
            out@ == mangle_chars(s@.take(i as int)),
        decreases n - i,
    {
        let c = s.get_char(i);
        let is_pass = ('a' <= c && c <= 'z') || ('A' <= c && c <= 'Z') || ('0' <= c && c <= '9');
        if is_pass {
            push_char(&mut out, c);
        } else {
            push_char(&mut out, '_');
            push_char(&mut out, 'X');
            push_hex(&mut out, c as u32);
            push_char(&mut out, '_');
        }
        proof {
            lemma_mangle_chars_snoc(s@.take(i as int), c);
            assert(s@.take(i + 1 as int).drop_last() =~= s@.take(i as int));
            assert(s@.take(i + 1 as int).last() == c);
            assert(s@.take(i + 1 as int) =~= s@.take(i as int).push(c));
            assert(out@ =~= mangle_chars(s@.take(i + 1 as int)));
        }
        i = i + 1;
    }
    proof {
        assert(s@.take(n as int) =~= s@);
    }
    out
}

/// Encoding distributes over appending one character at the end.
proof fn lemma_mangle_chars_snoc(s: Seq<char>, c: char)
    ensures
        mangle_chars(s.push(c)) == mangle_chars(s) + mangle_char(c),
    decreases s.len(),
{
    let t = s.push(c);
    assert(t.len() == s.len() + 1);
    assert(t[0] == if s.len() == 0 { c } else { s[0] });
    if s.len() == 0 {
        assert(t.drop_first() =~= Seq::<char>::empty());
        assert(mangle_chars(t) == mangle_char(c) + mangle_chars(Seq::<char>::empty()));
        assert(mangle_chars(s.push(c)) =~= mangle_chars(s) + mangle_char(c));
    } else {
        assert(t.drop_first() =~= s.drop_first().push(c));
        lemma_mangle_chars_snoc(s.drop_first(), c);
        assert(mangle_chars(t) == mangle_char(s[0]) + mangle_chars(s.drop_first().push(c)));
        assert(mangle_chars(s.push(c)) =~= mangle_chars(s) + mangle_char(c));
    }
}

/// The value of one hexadecimal digit character, or -1 for any other character.
pub open spec fn hex_char_val(c: char) -> int {
    if '0' <= c && c <= '9' {
        c as int - '0' as int
    } else if 'a' <= c && c <= 'f' {
        10 + (c as int - 'a' as int)
    } else if 'A' <= c && c <= 'F' {
        10 + (c as int - 'A' as int)
    } else {
        -1
    }
}

pub open spec fn is_hex_digit(c: char) -> bool {
    hex_char_val(c) >= 0
}

/// The value of a sequence of hexadecimal digits, most significant first.
pub open spec fn hex_seq_val(s: Seq<char>) -> int
    decreases s.len(),
{
    if s.len() == 0 {
        0
    } else {
        hex_seq_val(s.drop_last()) * 16 + hex_char_val(s.last())
    }
}

/// The digits of an escape payload: an optional leading `+` sign is allowed.
pub open spec fn payload_digits(h: Seq<char>) -> Seq<char> {
    if h.len() > 0 && h[0] == '+' {
        h.drop_first()
    } else {
        h
    }
}

/// Whether an escape payload parses as a 32-bit hexadecimal number.
pub open spec fn payload_ok(h: Seq<char>) -> bool {
    let d = payload_digits(h);
    &&& d.len() > 0
    &&& forall|i: int| 0 <= i < d.len() ==> is_hex_digit(#[trigger] d[i])
    &&& hex_seq_val(d) <= 0xFFFF_FFFF
}

pub open spec fn payload_val(h: Seq<char>) -> int {
    hex_seq_val(payload_digits(h))
}

/// Whether a code point value is a Unicode scalar value, i.e. a valid `char`.
pub open spec fn is_scalar_value(v: int) -> bool {
    (0 <= v && v < 0xD800) || (0xE000 <= v && v <= 0x10FFFF)
}

/// The index of the first underscore in `s`, or `s.len()` if there is none.
pub open spec fn first_us(s: Seq<char>) -> nat
    decreases s.len(),
{
    if s.len() == 0 {
        0
    } else if s[0] == '_' {
        0
    } else {
        1 + first_us(s.drop_first())
    }
}

/// The decoding of a mangled string.  Ordinary characters pass through; an
/// `_X<payload>_` escape whose payload is the hexadecimal spelling of a valid
/// code point becomes that character, and any other escape is re-emitted
/// literally.  A lone trailing `_`, or a `_` not followed by `X`, also passes
/// through.
pub open spec fn unmangle_chars(s: Seq<char>) -> Seq<char>
    decreases s.len(),
{
    if s.len() == 0 {
        Seq::empty()
    } else if s[0] != '_' {
        seq![s[0]] + unmangle_chars(s.drop_first())
    } else if s.len() == 1 {
        seq!['_']
    } else if s[1] != 'X' {
        seq!['_', s[1]] + unmangle_chars(s.skip(2))
    } else {
        let k = first_us(s.skip(2)) as int;
        let hex = s.skip(2).take(k);
        let jump = if 2 + k + 1 <= s.len() { 2 + k + 1 } else { s.len() as int };
        let rest = s.skip(jump);
        if payload_ok(hex) && is_scalar_value(payload_val(hex)) {
            seq![(payload_val(hex) as char)] + unmangle_chars(rest)
        } else {
            seq!['_', 'X'] + hex + (if 2 + k + 1 <= s.len() {
                seq!['_']
            } else {
                Seq::empty()
            }) + unmangle_chars(rest)
        }
    }
}

/// Any position with the defining properties of `first_us` is `first_us`.
proof fn lemma_first_us_is(s: Seq<char>, k: int)
    requires
        0 <= k <= s.len(),
        forall|i: int| 0 <= i < k ==> #[trigger] s[i] != '_',
        k < s.len() ==> s[k] == '_',
    ensures
        first_us(s) == k,
    decreases s.len(),
{
    if s.len() == 0 {
    } else if s[0] == '_' {
        assert(k == 0);
    } else {
        assert(k >= 1);
        lemma_first_us_is(s.drop_first(), k - 1);
    }
}

/// The value of a digit sequence is nonnegative.
proof fn lemma_hex_seq_val_nonneg(d: Seq<char>)
    requires
        forall|i: int| 0 <= i < d.len() ==> is_hex_digit(#[trigger] d[i]),
    ensures
        hex_seq_val(d) >= 0,
    decreases d.len(),
{
    if d.len() > 0 {
        assert(forall|i: int|
            0 <= i < d.drop_last().len() ==> is_hex_digit(#[trigger] d.drop_last()[i]));
        lemma_hex_seq_val_nonneg(d.drop_last());
    }
}

/// The value of a prefix of a digit sequence never exceeds the whole value.
proof fn lemma_hex_seq_val_mono(d: Seq<char>, m: int)
    requires
        forall|i: int| 0 <= i < d.len() ==> is_hex_digit(#[trigger] d[i]),
        0 <= m <= d.len(),
    ensures
        hex_seq_val(d.take(m)) <= hex_seq_val(d),
    decreases d.len(),
{
    if m == d.len() {
        assert(d.take(m) =~= d);
    } else {
        let dl = d.drop_last();
        assert(forall|i: int| 0 <= i < dl.len() ==> is_hex_digit(#[trigger] dl[i]));
        lemma_hex_seq_val_nonneg(dl);
        lemma_hex_seq_val_mono(dl, m);
        assert(dl.take(m) =~= d.take(m));
        assert(hex_seq_val(d) == hex_seq_val(dl) * 16 + hex_char_val(d.last()));
        assert(hex_seq_val(dl) * 16 >= hex_seq_val(dl));
    }
}

/// Relies on `char::from_u32`: returns the code point for every Unicode
/// scalar value and `None` for every other `u32`.
#[verifier::external_body]
fn char_from_u32(v: u32) -> (r: Option<char>)
    ensures
        is_scalar_value(v as int) ==> r == Some(v as char),
        !is_scalar_value(v as int) ==> r is None,
{
    char::from_u32(v)
}

/// Parses the characters of `s` in `[from, to)` as a hexadecimal escape
/// payload: an optional leading `+`, then hexadecimal digits, with a value
/// that fits in 32 bits.
fn parse_hex_payload(s: &str, from: usize, to: usize) -> (r: Option<u32>)
    requires
        from <= to <= s@.len(),
    ensures
        payload_ok(s@.subrange(from as int, to as int)) ==> r == Some(
            (payload_val(s@.subrange(from as int, to as int)) as u32),
        ),
        !payload_ok(s@.subrange(from as int, to as int)) ==> r is None,
{
    let ghost h = s@.subrange(from as int, to as int);
    let mut i = from;
    if i < to && s.get_char(i) == '+' {
        i = i + 1;
    }
    let start = i;
    proof {
        assert(payload_digits(h) =~= s@.subrange(start as int, to as int));
    }
    let ghost d = s@.subrange(start as int, to as int);
    if start == to {
        return None;
    }
    let mut val: u32 = 0;
    while i < to
        invariant
            from <= start <= i <= to <= s@.len(),
            h == s@.subrange(from as int, to as int),
            payload_digits(h) == d,
            d == s@.subrange(start as int, to as int),
            d.len() == to - start,
            d.len() > 0,
            forall|j: int| 0 <= j < i - start ==> is_hex_digit(#[trigger] d[j]),
            val as int == hex_seq_val(d.take(i - start)),
        decreases to - i,
    {
        let c = s.get_char(i);
        let dv: u32 = if '0' <= c && c <= '9' {
            (c as u32) - 48
        } else if 'a' <= c && c <= 'f' {
            10 + (c as u32) - 97
        } else if 'A' <= c && c <= 'F' {
            10 + (c as u32) - 65
        } else {
            proof {
                assert(d[i - start] == c);
                assert(!is_hex_digit(c));
            }
            return None;
        };
        assert(dv as int == hex_char_val(c));
        if val > (0xFFFF_FFFFu32 - dv) / 16 {
            proof {
                assert(d[i - start] == c);
                assert(d.take(i - start + 1).drop_last() =~= d.take(i - start));
                assert(d.take(i - start + 1).last() == c);
                assert(hex_seq_val(d.take(i - start + 1)) == (val as int) * 16 + dv);
                assert((val as int) * 16 + dv > 0xFFFF_FFFF) by (nonlinear_arith)
                    requires
                        val > (0xFFFF_FFFFu32 - dv) / 16,
                        0 <= dv < 16,
                ;
                if forall|j: int| 0 <= j < d.len() ==> is_hex_digit(#[trigger] d[j]) {
                    lemma_hex_seq_val_mono(d, i - start + 1);
                    assert(hex_seq_val(d) > 0xFFFF_FFFF);
                }
            }
            return None;
        }
        proof {
            assert((val as int) * 16 + dv <= 0xFFFF_FFFF) by (nonlinear_arith)
                requires
                    val <= (0xFFFF_FFFFu32 - dv) / 16,
                    0 <= dv < 16,
            ;
            assert(d.take(i - start + 1).drop_last() =~= d.take(i - start));
            assert(d.take(i - start + 1).last() == d[i - start]);
            assert(d[i - start] == c);
        }
        val = val * 16 + dv;
        i = i + 1;
    }
    proof {
        assert(d.take(to - start) =~= d);
        assert(payload_ok(h));
        lemma_hex_seq_val_nonneg(d);
    }
    Some(val)
}

/// Decodes a mangled fragment.  Valid `_X<hex>_` escapes become the encoded
/// character; malformed or non-decodable escape text is re-emitted literally,
/// never a failure.
pub fn _string_from_escape_to_c_ansi_id(s: &str) -> (r: String)
    ensures
        r@ == unmangle_chars(s@),
{
    let n = s.unicode_len();
    let mut out = String::new();
    let mut i: usize = 0;
    proof {
        assert(s@.skip(0) =~= s@);
        assert(out@ + unmangle_chars(s@) =~= unmangle_chars(s@));
    }
    while i < n
        invariant
            n == s@.len(),
            0 <= i <= n,
            unmangle_chars(s@) == out@ + unmangle_chars(s@.skip(i as int)),
        decreases n - i,
    {
        let ghost g = s@.skip(i as int);
        let c = s.get_char(i);
        assert(g[0] == c);
        if c != '_' {
            push_char(&mut out, c);
            proof {
                assert(g.drop_first() =~= s@.skip(i + 1));
                assert(unmangle_chars(g) == seq![c] + unmangle_chars(s@.skip(i + 1)));
                assert(unmangle_chars(s@) =~= out@ + unmangle_chars(s@.skip(i + 1)));
            }
            i = i + 1;
        } else if i + 1 >= n {
            push_char(&mut out, '_');
            proof {
                assert(g.len() == 1);
                assert(unmangle_chars(g) == seq!['_']);
                assert(s@.skip(n as int) =~= Seq::<char>::empty());
                assert(unmangle_chars(s@) =~= out@ + unmangle_chars(s@.skip(n as int)));
            }
            i = n;
        } else if s.get_char(i + 1) != 'X' {
            let c2 = s.get_char(i + 1);
            assert(g[1] == c2);
            push_char(&mut out, '_');
            push_char(&mut out, c2);
            proof {
                assert(g.skip(2) =~= s@.skip(i + 2));
                assert(unmangle_chars(g) == seq!['_', c2] + unmangle_chars(s@.skip(i + 2)));
                assert(unmangle_chars(s@) =~= out@ + unmangle_chars(s@.skip(i + 2)));
            }
            i = i + 2;
        } else {
            let mut j = i + 2;
            let mut stop = false;
            while j < n && !stop
                invariant
                    i + 2 <= j <= n,
                    n == s@.len(),
                    forall|m: int| i + 2 <= m < j ==> #[trigger] s@[m] != '_',
                    stop ==> j < n && s@[j as int] == '_',
                decreases n - j + (if stop { 0int } else { 1int }),
            {
                if s.get_char(j) == '_' {
                    stop = true;
                } else {
                    j = j + 1;
                }
            }
            assert(j < n ==> s@[j as int] == '_');
            let ghost k = first_us(g.skip(2)) as int;
            proof {
                assert(g.skip(2) =~= s@.skip(i + 2));
                lemma_first_us_is(s@.skip(i + 2), j - i - 2);
                assert(k == j - i - 2);
            }
            let ghost hex = g.skip(2).take(k);
            proof {
                assert(hex =~= s@.subrange(i + 2, j as int));
            }
            let decoded = match parse_hex_payload(s, i + 2, j) {
                Some(v) => char_from_u32(v),
                None => None,
            };
            match decoded {
                Some(dc) => {
                    push_char(&mut out, dc);
                    proof {
                        assert(payload_ok(hex));
                        lemma_hex_seq_val_nonneg(payload_digits(hex));
                        assert(payload_val(hex) <= 0xFFFF_FFFF);
                        assert(is_scalar_value(payload_val(hex)));
                        assert(dc == (payload_val(hex) as char));
                    }
                },
                None => {
                    push_char(&mut out, '_');
                    push_char(&mut out, 'X');
                    let frag = s.substring_char(i + 2, j);
                    out.append(frag);
                    if j < n {
                        push_char(&mut out, '_');
                    }
                    proof {
                        assert(!(payload_ok(hex) && is_scalar_value(payload_val(hex))));
                    }
                },
            }
            proof {
                let jump = if 2 + k + 1 <= g.len() { 2 + k + 1 } else { g.len() as int };
                if j < n {
                    assert(jump == j + 1 - i);
                    assert(g.skip(jump) =~= s@.skip(j + 1));
                } else {
                    assert(jump == g.len());
                    assert(g.skip(jump) =~= s@.skip(n as int));
                }
                assert(unmangle_chars(s@) =~= out@ + unmangle_chars(
                    s@.skip(if j < n { j + 1 } else { n as int }),
                ));
            }
            i = if j < n { j + 1 } else { n };
        }
    }
    proof {
        assert(s@.skip(n as int) =~= Seq::<char>::empty());
    }
    out
}

/// The hexadecimal spelling of a value consists of hexadecimal digit
/// characters only: no underscore and no sign.
proof fn lemma_hex_str_digits(n: nat)
    ensures
        hex_str(n).len() >= 1,
        forall|i: int|
            0 <= i < hex_str(n).len() ==> {
                let c = #[trigger] hex_str(n)[i];
                is_hex_digit(c) && c != '_' && c != '+' && hex_char_val(c) < 16
            },
    decreases n,
{
    if n < 16 {
        assert(hex_str(n) == seq![hex_digit_char(n as int)]);
        assert(is_hex_digit(hex_digit_char(n as int)) && hex_digit_char(n as int) != '_'
            && hex_digit_char(n as int) != '+' && hex_char_val(hex_digit_char(n as int)) < 16);
    } else {
        lemma_hex_str_digits(n / 16);
        let d = (n % 16) as int;
        assert(0 <= d < 16);
        assert(is_hex_digit(hex_digit_char(d)) && hex_digit_char(d) != '_' && hex_digit_char(d)
            != '+' && hex_char_val(hex_digit_char(d)) < 16);
        assert(forall|i: int|
            0 <= i < hex_str(n).len() ==> #[trigger] hex_str(n)[i] == if i < hex_str(n / 16).len() {
                hex_str(n / 16)[i]
            } else {
                hex_digit_char(d)
            });
    }
}

/// Decoding the hexadecimal spelling of `n` gives back `n`.
proof fn lemma_hex_str_val(n: nat)
    ensures
        hex_seq_val(hex_str(n)) == n,
    decreases n,
{
    if n < 16 {
        let h = hex_str(n);
        assert(h == seq![hex_digit_char(n as int)]);
        assert(h.len() == 1);
        assert(h.last() == hex_digit_char(n as int));
        assert(h.drop_last() =~= Seq::<char>::empty());
        assert(hex_seq_val(h.drop_last()) == 0);
        assert(hex_char_val(hex_digit_char(n as int)) == n);
        assert(hex_seq_val(h) == 0 * 16 + hex_char_val(h.last()));
    } else {
        lemma_hex_str_val(n / 16);
        let h = hex_str(n);
        assert(h.drop_last() =~= hex_str(n / 16));
        assert(hex_char_val(hex_digit_char((n % 16) as int)) == n % 16);
        assert(hex_seq_val(h) == (n / 16) * 16 + n % 16);
        assert((n / 16) * 16 + n % 16 == n) by (nonlinear_arith);
    }
}

/// Decoding one encoded character in front of any tail decodes the character
/// and leaves the tail to decode.
proof fn lemma_unmangle_prepend(c: char, t: Seq<char>)
    ensures
        unmangle_chars(mangle_char(c) + t) == seq![c] + unmangle_chars(t),
{
    if is_c_alnum(c) {
        let m = seq![c] + t;
        assert(m[0] == c && c != '_');
        assert(m.drop_first() =~= t);
        assert(unmangle_chars(m) =~= seq![c] + unmangle_chars(t));
    } else {
        let h = hex_str(c as nat);
        lemma_hex_str_digits(c as nat);
        let m = mangle_char(c) + t;
        assert(m =~= seq!['_', 'X'] + h + seq!['_'] + t);
        assert(m.len() == h.len() + 3 + t.len());
        assert(m[0] == '_' && m[1] == 'X');
        let g = m.skip(2);
        assert(g =~= h + seq!['_'] + t);
        assert(forall|i: int| 0 <= i < h.len() ==> #[trigger] g[i] == h[i]);
        assert(g[h.len() as int] == '_');
        lemma_first_us_is(g, h.len() as int);
        let k = first_us(g) as int;
        assert(k == h.len());
        let hex = g.take(k);
        assert(hex =~= h);
        lemma_hex_str_val(c as nat);
        assert(h[0] != '+');
        assert(payload_digits(hex) == hex);
        assert(hex_seq_val(hex) == c as nat);
        assert(c as nat <= 0x10FFFF);
        assert(payload_ok(hex));
        assert(payload_val(hex) == c as int);
        assert(is_scalar_value(c as int));
        assert((payload_val(hex) as char) == c);
        let jump = if 2 + k + 1 <= m.len() { 2 + k + 1 } else { m.len() as int };
        assert(jump == h.len() + 3);
        assert(m.skip(jump) =~= t);
        assert(unmangle_chars(m) =~= seq![c] + unmangle_chars(t));
    }
}

/// Round trip: decoding an encoded string gives back the original, for every
/// string.
pub proof fn lemma_unmangle_mangle(s: Seq<char>)
    ensures
        unmangle_chars(mangle_chars(s)) == s,
    decreases s.len(),
{
    if s.len() == 0 {
        assert(unmangle_chars(mangle_chars(s)) =~= s);
    } else {
        lemma_unmangle_mangle(s.drop_first());
        lemma_unmangle_prepend(s[0], mangle_chars(s.drop_first()));
        assert(unmangle_chars(mangle_chars(s)) =~= seq![s[0]] + s.drop_first());
        assert(seq![s[0]] + s.drop_first() =~= s);
    }
}

/// Determinism: encoding the same (namespace, name) pair twice yields the
/// same identifier — the encoding is a function of the two strings alone.
pub proof fn lemma_mangle_deterministic(m1: Seq<char>, s1: Seq<char>, m2: Seq<char>, s2: Seq<char>)
    requires
        m1 == m2,
        s1 == s2,
    ensures
        mangle_qualified(m1, s1) == mangle_qualified(m2, s2),
{
}

/// Produces the module-qualified mangled identifier for `s` in module `module`.
pub fn string_to_escape_to_c_ansi_id(module: &str, s: &str) -> (r: String)
    ensures
        r@ == mangle_qualified(module@, s@),
{
    let mut out = _string_to_escape_to_c_ansi_id(module);
    out.append("_MM_");
    let tail = _string_to_escape_to_c_ansi_id(s);
    out.append(tail.as_str());
    proof {
        reveal_strlit("_MM_");
        assert("_MM_"@ =~= mm_sep());
        assert(out@ =~= mangle_qualified(module@, s@));
    }
    out
}

/// Shifts a scan result by an offset; a miss (`-1`) stays a miss.
pub open spec fn shift_idx(r: int, i: int) -> int {
    if r == -1 {
        -1
    } else {
        r + i
    }
}

/// The position of the module separator found by an escape-aware
/// left-to-right scan, or `-1`.  Ordinary characters are stepped over one
/// by one; a whole `_X..._` escape is stepped over as one token, so a `_`
/// inside an escape payload or a closing `_` can never be mistaken for the
/// separator.  On mangled text every `_` opens or closes an escape, which
/// makes the split of a module-qualified identifier unambiguous.
pub open spec fn scan_mm(s: Seq<char>) -> int
    decreases s.len(),
{
    if s.len() == 0 {
        -1
    } else if s[0] != '_' {
        shift_idx(scan_mm(s.drop_first()), 1)
    } else if s.len() >= 4 && s[1] == 'M' && s[2] == 'M' && s[3] == '_' {
        0
    } else if s.len() >= 2 && s[1] == 'X' {
        let k = first_us(s.skip(2)) as int;
        if 2 + k + 1 <= s.len() {
            shift_idx(scan_mm(s.skip(2 + k + 1)), 2 + k + 1)
        } else {
            -1
        }
    } else {
        shift_idx(scan_mm(s.drop_first()), 1)
    }
}

/// The scan returns `-1` or a position.
pub proof fn lemma_scan_ge(s: Seq<char>)
    ensures
        scan_mm(s) >= -1,
    decreases s.len(),
{
    if s.len() == 0 {
    } else if s[0] != '_' {
        lemma_scan_ge(s.drop_first());
    } else if s.len() >= 4 && s[1] == 'M' && s[2] == 'M' && s[3] == '_' {
    } else if s.len() >= 2 && s[1] == 'X' {
        let k = first_us(s.skip(2)) as int;
        if 2 + k + 1 <= s.len() {
            lemma_scan_ge(s.skip(2 + k + 1));
        }
    } else {
        lemma_scan_ge(s.drop_first());
    }
}

/// A found separator lies in bounds and spells `_MM_`.
pub proof fn lemma_scan_bounds(s: Seq<char>)
    ensures
        scan_mm(s) >= 0 ==> {
            let i = scan_mm(s);
            &&& i + 4 <= s.len()
            &&& s[i] == '_'
            &&& s[i + 1] == 'M'
            &&& s[i + 2] == 'M'
            &&& s[i + 3] == '_'
        },
    decreases s.len(),
{
    if s.len() == 0 {
    } else if s[0] != '_' {
        lemma_scan_bounds(s.drop_first());
        lemma_scan_ge(s.drop_first());
        if scan_mm(s) >= 0 {
            let r = scan_mm(s.drop_first());
            assert(r >= 0);
            assert(forall|x: int|
                0 <= x < s.drop_first().len() ==> #[trigger] s.drop_first()[x] == s[x + 1]);
        }
    } else if s.len() >= 4 && s[1] == 'M' && s[2] == 'M' && s[3] == '_' {
    } else if s.len() >= 2 && s[1] == 'X' {
        let k = first_us(s.skip(2)) as int;
        if 2 + k + 1 <= s.len() {
            lemma_scan_bounds(s.skip(2 + k + 1));
            lemma_scan_ge(s.skip(2 + k + 1));
            if scan_mm(s) >= 0 {
                let r = scan_mm(s.skip(2 + k + 1));
                assert(r >= 0);
                assert(forall|x: int|
                    0 <= x < s.skip(2 + k + 1).len() ==> #[trigger] s.skip(2 + k + 1)[x] == s[x + 2
                        + k + 1]);
            }
        }
    } else {
        lemma_scan_bounds(s.drop_first());
        lemma_scan_ge(s.drop_first());
        if scan_mm(s) >= 0 {
            let r = scan_mm(s.drop_first());
            assert(r >= 0);
            assert(forall|x: int|
                0 <= x < s.drop_first().len() ==> #[trigger] s.drop_first()[x] == s[x + 1]);
        }
    }
}

/// Finds the module separator of `s` by the escape-aware scan.
fn find_mm(s: &str) -> (r: Option<usize>)
    ensures
        match r {
            Some(i) => scan_mm(s@) == i as int,
            None => scan_mm(s@) == -1,
        },
{
    let n = s.unicode_len();
    let mut i: usize = 0;
    proof {
        assert(s@.skip(0) =~= s@);
    }
    while i < n
        invariant
            n == s@.len(),
            0 <= i <= n,
            scan_mm(s@) == shift_idx(scan_mm(s@.skip(i as int)), i as int),
        decreases n - i,
    {
        let ghost g = s@.skip(i as int);
        let c = s.get_char(i);
        assert(g[0] == c);
        if c != '_' {
            proof {
                assert(g.drop_first() =~= s@.skip(i + 1));
                lemma_scan_ge(s@.skip(i + 1));
                assert(scan_mm(g) == shift_idx(scan_mm(s@.skip(i + 1)), 1));
                assert(scan_mm(s@) == shift_idx(scan_mm(s@.skip(i + 1)), i + 1));
            }
            i = i + 1;
        } else if n - i >= 4 && s.get_char(i + 1) == 'M' && s.get_char(i + 2) == 'M' && s.get_char(
            i + 3,
        ) == '_' {
            proof {
                assert(g.len() >= 4 && g[1] == 'M' && g[2] == 'M' && g[3] == '_');
                assert(scan_mm(g) == 0);
            }
            return Some(i);
        } else if i + 1 < n && s.get_char(i + 1) == 'X' {
            assert(g.len() >= 2 && g[1] == 'X');
            let mut j = i + 2;
            let mut stop = false;
            while j < n && !stop
                invariant
                    i + 2 <= j <= n,
                    n == s@.len(),
                    forall|m: int| i + 2 <= m < j ==> #[trigger] s@[m] != '_',
                    stop ==> j < n && s@[j as int] == '_',
                decreases n - j + (if stop { 0int } else { 1int }),
            {
                if s.get_char(j) == '_' {
                    stop = true;
                } else {
                    j = j + 1;
                }
            }
            assert(j < n ==> s@[j as int] == '_');
            proof {
                assert(g.skip(2) =~= s@.skip(i + 2));
                lemma_first_us_is(s@.skip(i + 2), j - i - 2);
                assert(first_us(g.skip(2)) == j - i - 2);
            }
            if j < n {
                proof {
                    assert(2 + (j - i - 2) + 1 <= g.len());
                    assert(g.skip(j + 1 - i) =~= s@.skip(j + 1));
                    lemma_scan_ge(s@.skip(j + 1));
                    assert(scan_mm(g) == shift_idx(scan_mm(s@.skip(j + 1)), j + 1 - i));
                    assert(scan_mm(s@) == shift_idx(scan_mm(s@.skip(j + 1)), j + 1));
                }
                i = j + 1;
            } else {
                proof {
                    assert(2 + (j - i - 2) + 1 > g.len());
                    assert(scan_mm(g) == -1);
                }
                return None;
            }
        } else {
            proof {
                assert(!(g.len() >= 4 && g[1] == 'M' && g[2] == 'M' && g[3] == '_'));
                assert(!(g.len() >= 2 && g[1] == 'X'));
                assert(g.drop_first() =~= s@.skip(i + 1));
                lemma_scan_ge(s@.skip(i + 1));
                assert(scan_mm(g) == shift_idx(scan_mm(s@.skip(i + 1)), 1));
                assert(scan_mm(s@) == shift_idx(scan_mm(s@.skip(i + 1)), i + 1));
            }
            i = i + 1;
        }
    }
    proof {
        assert(s@.skip(n as int) =~= Seq::<char>::empty());
    }
    None
}

/// Splits a module-qualified mangled identifier at the separator the
/// escape-aware scan finds, and decodes the module part and the name part.
/// `lemma_qualified_split` shows the split is unambiguous: on
/// `string_to_escape_to_c_ansi_id(m, s)` it recovers exactly `(m, s)`.
pub fn string_from_escape_to_c_ansi_id(s: &str) -> (r: (String, String))
    requires
        scan_mm(s@) >= 0,
    ensures
        r.0@ == unmangle_chars(s@.take(scan_mm(s@))),
        ({
            let t = s@.skip(scan_mm(s@) + 4);
            r.1@ == unmangle_chars(
                if scan_mm(t) >= 0 {
                    t.take(scan_mm(t))
                } else {
                    t
                },
            )
        }),
{
    let n = s.unicode_len();
    let i = match find_mm(s) {
        Some(i) => i,
        None => {
            // the scan is required to find a separator
            assert(false);
            0
        },
    };
    proof {
        lemma_scan_bounds(s@);
        assert(s@.subrange(0, i as int) =~= s@.take(i as int));
    }
    let first = _string_from_escape_to_c_ansi_id(s.substring_char(0, i));
    let tail = s.substring_char(i + 4, n);
    proof {
        assert(tail@ =~= s@.skip(i + 4));
    }
    let second_str = match find_mm(tail) {
        Some(j) => {
            proof {
                lemma_scan_bounds(tail@);
                assert(tail@.subrange(0, j as int) =~= tail@.take(j as int));
            }
            tail.substring_char(0, j)
        },
        None => tail,
    };
    let second = _string_from_escape_to_c_ansi_id(second_str);
    (first, second)
}

/// Prepending one encoded character shifts the scan by the encoding's
/// length: the scan steps over a whole escape and never fires inside one.
proof fn lemma_scan_prepend_char(c: char, t: Seq<char>)
    ensures
        scan_mm(mangle_char(c) + t) == shift_idx(scan_mm(t), mangle_char(c).len() as int),
{
    let x = mangle_char(c) + t;
    if is_c_alnum(c) {
        assert(x[0] == c && c != '_');
        assert(x.drop_first() =~= t);
    } else {
        let h = hex_str(c as nat);
        lemma_hex_str_digits(c as nat);
        assert(x =~= seq!['_', 'X'] + h + seq!['_'] + t);
        assert(x.len() == h.len() + 3 + t.len());
        assert(x[0] == '_' && x[1] == 'X');
        assert(!(x.len() >= 4 && x[1] == 'M' && x[2] == 'M' && x[3] == '_'));
        let g = x.skip(2);
        assert(g =~= h + seq!['_'] + t);
        assert(forall|i: int| 0 <= i < h.len() ==> #[trigger] g[i] == h[i]);
        assert(g[h.len() as int] == '_');
        lemma_first_us_is(g, h.len() as int);
        let k = h.len() as int;
        assert(2 + k + 1 <= x.len());
        assert(x.skip(2 + k + 1) =~= t);
        assert(mangle_char(c).len() == 2 + k + 1);
    }
}

/// Prepending mangled text shifts the scan by its length.
proof fn lemma_scan_mangled_prefix(u: Seq<char>, t: Seq<char>)
    ensures
        scan_mm(mangle_chars(u) + t) == shift_idx(scan_mm(t), mangle_chars(u).len() as int),
    decreases u.len(),
{
    if u.len() == 0 {
        assert(mangle_chars(u) + t =~= t);
    } else {
        lemma_scan_mangled_prefix(u.drop_first(), t);
        lemma_scan_prepend_char(u[0], mangle_chars(u.drop_first()) + t);
        lemma_scan_ge(t);
        assert(mangle_chars(u) + t =~= mangle_char(u[0]) + (mangle_chars(u.drop_first()) + t));
    }
}

/// The split is unambiguous: on a module-qualified mangled identifier the
/// scan lands exactly on the joining separator, the part before it is the
/// mangled module, the part after it is the mangled name with no separator
/// of its own, and decoding both recovers the original pair.
pub proof fn lemma_qualified_split(m: Seq<char>, s: Seq<char>)
    ensures
        scan_mm(mangle_qualified(m, s)) == mangle_chars(m).len() as int,
        unmangle_chars(mangle_qualified(m, s).take(mangle_chars(m).len() as int)) == m,
        mangle_qualified(m, s).skip(mangle_chars(m).len() as int + 4) == mangle_chars(s),
        scan_mm(mangle_chars(s)) == -1,
        unmangle_chars(mangle_qualified(m, s).skip(mangle_chars(m).len() as int + 4)) == s,
{
    let q = mangle_qualified(m, s);
    let rest = mm_sep() + mangle_chars(s);
    lemma_scan_mangled_prefix(m, rest);
    assert(q =~= mangle_chars(m) + rest);
    assert(rest[0] == '_' && rest[1] == 'M' && rest[2] == 'M' && rest[3] == '_');
    assert(rest.len() >= 4);
    assert(scan_mm(rest) == 0);
    assert(scan_mm(q) == mangle_chars(m).len() as int);
    assert(q.take(mangle_chars(m).len() as int) =~= mangle_chars(m));
    lemma_unmangle_mangle(m);
    assert(q.skip(mangle_chars(m).len() as int + 4) =~= mangle_chars(s));
    lemma_scan_mangled_prefix(s, Seq::empty());
    assert(mangle_chars(s) + Seq::<char>::empty() =~= mangle_chars(s));
    lemma_unmangle_mangle(s);
}

/// Whether positions `i..=j` of `s` hold a `{name}` interpolation: an opening
/// brace, a nonempty run of characters none of which is a closing brace, and
/// the first closing brace after it.
pub open spec fn match_pair(s: Seq<char>, i: int, j: int) -> bool {
    &&& 0 <= i
    &&& i + 2 <= j < s.len()
    &&& s[i] == '{'
    &&& s[j] == '}'
    &&& forall|k: int| i < k < j ==> s[k] != '}'
}

pub open spec fn brace_match_at(s: Seq<char>, i: int) -> bool {
    exists|j: int| match_pair(s, i, j)
}

pub open spec fn has_brace_match(s: Seq<char>) -> bool {
    exists|i: int| brace_match_at(s, i)
}

/// Whether `(i, j)` is the leftmost interpolation of `s`.
pub open spec fn is_first_brace_match(s: Seq<char>, i: int, j: int) -> bool {
    match_pair(s, i, j) && forall|x: int| 0 <= x < i ==> !brace_match_at(s, x)
}

/// Whether `pat` is a prefix of `s`.
pub open spec fn pat_at_front(s: Seq<char>, pat: Seq<char>) -> bool {
    pat.len() <= s.len() && s.subrange(0, pat.len() as int) == pat
}

/// Every non-overlapping occurrence of `pat` in `s`, scanning left to right,
/// replaced by `rep`.
pub open spec fn replace_all(s: Seq<char>, pat: Seq<char>, rep: Seq<char>) -> Seq<char>
    decreases s.len(),
{
    if pat.len() == 0 || s.len() < pat.len() {
        s
    } else if pat_at_front(s, pat) {
        rep + replace_all(s.skip(pat.len() as int), pat, rep)
    } else {
        seq![s[0]] + replace_all(s.drop_first(), pat, rep)
    }
}

pub open spec fn occurs(s: Seq<char>, pat: Seq<char>) -> bool {
    exists|k: int| 0 <= k && k + pat.len() <= s.len() && #[trigger] s.subrange(k, k + pat.len())
        == pat
}

/// One interpolation step: the leftmost `{name}` is cut out, `name` is
/// mangled against `module`, and every occurrence of the same `{name}` text
/// is replaced by the mangled identifier.
pub open spec fn interp_step(module: Seq<char>, s: Seq<char>, i: int, j: int) -> Seq<char> {
    replace_all(s, s.subrange(i, j + 1), mangle_qualified(module, s.subrange(i + 1, j)))
}

/// `s` rewrites to `t` by interpolation steps, `n` or fewer of them, ending
/// with no interpolation left.
pub open spec fn rewrites_to(module: Seq<char>, s: Seq<char>, t: Seq<char>, n: nat) -> bool
    decreases n,
{
    if !has_brace_match(s) {
        s == t
    } else if n == 0 {
        false
    } else {
        exists|i: int, j: int|
            #[trigger] is_first_brace_match(s, i, j) && rewrites_to(
                module,
                interp_step(module, s, i, j),
                t,
                (n - 1) as nat,
            )
    }
}

/// The number of opening braces in `s`; the measure that interpolation
/// strictly shrinks.
pub open spec fn brace_count(s: Seq<char>) -> nat {
    s.filter(|c: char| c == '{').len()
}

proof fn lemma_brace_count_concat(a: Seq<char>, b: Seq<char>)
    ensures
        brace_count(a + b) == brace_count(a) + brace_count(b),
{
    Seq::filter_distributes_over_add(a, b, |c: char| c == '{');
}

proof fn lemma_brace_count_zero(s: Seq<char>)
    requires
        forall|i: int| 0 <= i < s.len() ==> #[trigger] s[i] != '{',
    ensures
        brace_count(s) == 0,
    decreases s.len(),
{
    reveal(Seq::filter);
    if s.len() > 0 {
        assert(forall|i: int| 0 <= i < s.drop_last().len() ==> #[trigger] s.drop_last()[i] != '{');
        lemma_brace_count_zero(s.drop_last());
        assert(s.last() != '{');
    }
}

proof fn lemma_brace_count_single(c: char)
    ensures
        brace_count(seq![c]) == if c == '{' {
            1nat
        } else {
            0nat
        },
{
    reveal(Seq::filter);
    let s = seq![c];
    assert(s.drop_last() =~= Seq::<char>::empty());
    assert(s.last() == c);
    assert(Seq::<char>::empty().filter(|c: char| c == '{') =~= Seq::<char>::empty());
    if c == '{' {
        assert(s.filter(|c: char| c == '{') =~= Seq::<char>::empty().push(c));
    }
}

/// Mangled text contains no brace, so interpolation never creates new work.
proof fn lemma_mangle_no_brace(s: Seq<char>)
    ensures
        forall|i: int|
            0 <= i < mangle_chars(s).len() ==> #[trigger] mangle_chars(s)[i] != '{'
                && mangle_chars(s)[i] != '}',
    decreases s.len(),
{
    if s.len() > 0 {
        lemma_mangle_no_brace(s.drop_first());
        let m = mangle_char(s[0]);
        if !is_c_alnum(s[0]) {
            lemma_hex_str_digits(s[0] as nat);
            assert(forall|i: int|
                0 <= i < m.len() ==> #[trigger] m[i] == (seq!['_', 'X'] + hex_str(
                    s[0] as nat,
                ) + seq!['_'])[i]);
        }
        assert(forall|i: int| 0 <= i < m.len() ==> #[trigger] m[i] != '{' && m[i] != '}');
        assert(forall|i: int|
            0 <= i < mangle_chars(s).len() ==> #[trigger] mangle_chars(s)[i] == if i < m.len() {
                m[i]
            } else {
                mangle_chars(s.drop_first())[i - m.len()]
            });
    }
}

proof fn lemma_mangle_qualified_no_brace(m: Seq<char>, s: Seq<char>)
    ensures
        brace_count(mangle_qualified(m, s)) == 0,
{
    lemma_mangle_no_brace(m);
    lemma_mangle_no_brace(s);
    let q = mangle_qualified(m, s);
    assert(forall|i: int| 0 <= i < q.len() ==> #[trigger] q[i] != '{');
    lemma_brace_count_zero(q);
}

/// Replacement with brace-free text does not increase the brace count.
proof fn lemma_replace_all_le(s: Seq<char>, pat: Seq<char>, rep: Seq<char>)
    requires
        pat.len() >= 1,
        brace_count(rep) == 0,
    ensures
        brace_count(replace_all(s, pat, rep)) <= brace_count(s),
    decreases s.len(),
{
    if s.len() < pat.len() {
    } else if pat_at_front(s, pat) {
        let tail = s.skip(pat.len() as int);
        lemma_replace_all_le(tail, pat, rep);
        lemma_brace_count_concat(rep, replace_all(tail, pat, rep));
        assert(s =~= s.subrange(0, pat.len() as int) + tail);
        lemma_brace_count_concat(s.subrange(0, pat.len() as int), tail);
    } else {
        lemma_replace_all_le(s.drop_first(), pat, rep);
        lemma_brace_count_concat(seq![s[0]], replace_all(s.drop_first(), pat, rep));
        assert(s =~= seq![s[0]] + s.drop_first());
        lemma_brace_count_concat(seq![s[0]], s.drop_first());
    }
}

/// Replacing an occurring pattern that contains a brace with brace-free text
/// strictly shrinks the brace count.
proof fn lemma_replace_all_lt(s: Seq<char>, pat: Seq<char>, rep: Seq<char>)
    requires
        pat.len() >= 1,
        brace_count(pat) >= 1,
        brace_count(rep) == 0,
        occurs(s, pat),
    ensures
        brace_count(replace_all(s, pat, rep)) < brace_count(s),
    decreases s.len(),
{
    let k = choose|k: int|
        0 <= k && k + pat.len() <= s.len() && #[trigger] s.subrange(k, k + pat.len()) == pat;
    if pat_at_front(s, pat) {
        let tail = s.skip(pat.len() as int);
        lemma_replace_all_le(tail, pat, rep);
        lemma_brace_count_concat(rep, replace_all(tail, pat, rep));
        assert(s =~= s.subrange(0, pat.len() as int) + tail);
        lemma_brace_count_concat(s.subrange(0, pat.len() as int), tail);
    } else {
        assert(k >= 1) by {
            if k == 0 {
                assert(pat_at_front(s, pat));
            }
        };
        let d = s.drop_first();
        assert(d.subrange(k - 1, k - 1 + pat.len()) =~= s.subrange(k, k + pat.len()));
        assert(occurs(d, pat));
        lemma_replace_all_lt(d, pat, rep);
        lemma_brace_count_concat(seq![s[0]], replace_all(d, pat, rep));
        assert(s =~= seq![s[0]] + d);
        lemma_brace_count_concat(seq![s[0]], d);
    }
}

/// Finds the leftmost `{name}` interpolation of `s`.
fn find_first_brace(s: &str) -> (r: Option<(usize, usize)>)
    ensures
        match r {
            Some(p) => is_first_brace_match(s@, p.0 as int, p.1 as int),
            None => !has_brace_match(s@),
        },
{
    let n = s.unicode_len();
    let mut i: usize = 0;
    while i < n
        invariant
            0 <= i <= n,
            n == s@.len(),
            forall|x: int| 0 <= x < i ==> !brace_match_at(s@, x),
        decreases n - i,
    {
        if s.get_char(i) == '{' {
            let mut j = i + 1;
            let mut stop = false;
            while j < n && !stop
                invariant
                    i + 1 <= j <= n,
                    n == s@.len(),
                    forall|k: int| i < k < j ==> #[trigger] s@[k] != '}',
                    stop ==> j < n && s@[j as int] == '}',
                decreases n - j + (if stop { 0int } else { 1int }),
            {
                if s.get_char(j) == '}' {
                    stop = true;
                } else {
                    j = j + 1;
                }
            }
            if stop && j >= i + 2 {
                assert(match_pair(s@, i as int, j as int));
                return Some((i, j));
            }
            proof {
                if !stop {
                    assert forall|x: int| i <= x < n implies !brace_match_at(s@, x) by {
                        if match_pair(s@, x, choose|y: int| match_pair(s@, x, y)) {
                            let y = choose|y: int| match_pair(s@, x, y);
                            assert(s@[y] == '}');
                            assert(i < y < n);
                        }
                    };
                } else {
                    assert(j == i + 1 && s@[j as int] == '}');
                    assert forall|y: int| true implies !match_pair(s@, i as int, y) by {
                        if match_pair(s@, i as int, y) {
                            assert((i as int) < i + 1 && i + 1 < y);
                            assert(s@[i + 1] != '}');
                        }
                    };
                    assert(!brace_match_at(s@, i as int));
                }
            }
            if !stop {
                return None;
            }
        } else {
            assert(!brace_match_at(s@, i as int));
        }
        i = i + 1;
    }
    None
}

/// Whether the characters of `s` starting at `idx` begin with `pat`.
fn str_matches_at(s: &str, idx: usize, pat: &str, pat_len: usize) -> (b: bool)
    requires
        idx <= s@.len(),
        pat_len == pat@.len(),
    ensures
        b == (idx + pat@.len() <= s@.len() && s@.subrange(idx as int, idx + pat@.len()) == pat@),
{
    let n = s.unicode_len();
    if pat_len > n - idx || pat_len > n {
        return false;
    }
    let mut m: usize = 0;
    while m < pat_len
        invariant
            0 <= m <= pat_len == pat@.len(),
            idx + pat_len <= n == s@.len(),
            forall|x: int| 0 <= x < m ==> #[trigger] s@[idx + x] == pat@[x],
        decreases pat_len - m,
    {
        if s.get_char(idx + m) != pat.get_char(m) {
            proof {
                assert(s@.subrange(idx as int, idx + pat@.len())[m as int] != pat@[m as int]);
            }
            return false;
        }
        m = m + 1;
    }
    proof {
        assert(forall|x: int|
            0 <= x < pat@.len() ==> #[trigger] s@.subrange(idx as int, idx + pat@.len())[x]
                == s@[idx + x]);
        assert(s@.subrange(idx as int, idx + pat@.len()) =~= pat@);
    }
    true
}

/// Replaces every non-overlapping occurrence of `pat` in `s` with `rep`,
/// scanning left to right.
fn replace_all_str(s: &str, pat: &str, rep: &str) -> (r: String)
    requires
        pat@.len() >= 1,
    ensures
        r@ == replace_all(s@, pat@, rep@),
{
    let n = s.unicode_len();
    let pat_len = pat.unicode_len();
    let mut out = String::new();
    let mut idx: usize = 0;
    proof {
        assert(s@.skip(0) =~= s@);
    }
    while idx < n
        invariant
            0 <= idx <= n,
            n == s@.len(),
            pat_len == pat@.len() >= 1,
            replace_all(s@, pat@, rep@) == out@ + replace_all(s@.skip(idx as int), pat@, rep@),
        decreases n - idx,
    {
        let ghost g = s@.skip(idx as int);
        if str_matches_at(s, idx, pat, pat_len) {
            out.append(rep);
            proof {
                assert(g.subrange(0, pat@.len() as int) =~= s@.subrange(
                    idx as int,
                    idx + pat@.len(),
                ));
                assert(pat_at_front(g, pat@));
                assert(g.skip(pat@.len() as int) =~= s@.skip(idx + pat_len));
                assert(replace_all(g, pat@, rep@) == rep@ + replace_all(
                    s@.skip(idx + pat_len),
                    pat@,
                    rep@,
                ));
                assert(replace_all(s@, pat@, rep@) =~= out@ + replace_all(
                    s@.skip(idx + pat_len),
                    pat@,
                    rep@,
                ));
            }
            idx = idx + pat_len;
        } else {
            let c = s.get_char(idx);
            push_char(&mut out, c);
            proof {
                assert(g[0] == c);
                if g.len() >= pat@.len() {
                    assert(g.subrange(0, pat@.len() as int) =~= s@.subrange(
                        idx as int,
                        idx + pat@.len(),
                    ));
                    assert(!pat_at_front(g, pat@));
                }
                assert(g.drop_first() =~= s@.skip(idx + 1));
                assert(replace_all(g, pat@, rep@) == seq![c] + replace_all(
                    s@.skip(idx + 1),
                    pat@,
                    rep@,
                ));
                assert(replace_all(s@, pat@, rep@) =~= out@ + replace_all(
                    s@.skip(idx + 1),
                    pat@,
                    rep@,
                ));
            }
            idx = idx + 1;
        }
    }
    proof {
        assert(s@.skip(n as int) =~= Seq::<char>::empty());
        assert(replace_all(Seq::<char>::empty(), pat@, rep@) == Seq::<char>::empty());
        assert(out@ + Seq::<char>::empty() =~= out@);
    }
    out
}

/// Rewrites every `{name}` interpolation in `code` to the mangling of `name`
/// against `module`, repeating until no interpolation is left.  The mangled
/// text never contains a brace, so the process terminates.
pub fn format_to_escape_replace(module: &str, code: String) -> (r: String)
    ensures
        exists|n: nat| rewrites_to(module@, code@, r@, n),
        !has_brace_match(r@),
{
    let ghost orig = code@;
    let mut cur = code.clone();
    let ghost mut steps: nat = 0;
    assert(cur@ == orig);
    loop
        invariant
            orig == code@,
            forall|t: Seq<char>, n: nat|
                rewrites_to(module@, cur@, t, n) ==> rewrites_to(module@, orig, t, (n + steps) as nat),
        decreases brace_count(cur@),
    {
        match find_first_brace(cur.as_str()) {
            None => {
                proof {
                    assert(rewrites_to(module@, cur@, cur@, 0));
                    assert(rewrites_to(module@, orig, cur@, (0 + steps) as nat));
                    assert(rewrites_to(module@, orig, cur@, steps));
                }
                return cur;
            },
            Some((i, j)) => {
                assert(is_first_brace_match(cur@, i as int, j as int));
                let n = cur.as_str().unicode_len();
                assert(j < n);
                let full = cur.as_str().substring_char(i, j + 1);
                let content = cur.as_str().substring_char(i + 1, j);
                let rep = string_to_escape_to_c_ansi_id(module, content);
                let next = replace_all_str(cur.as_str(), full, rep.as_str());
                proof {
                    let ghost pat = cur@.subrange(i as int, j + 1);
                    assert(full@ == pat);
                    assert(next@ == interp_step(module@, cur@, i as int, j as int));
                    lemma_mangle_qualified_no_brace(module@, cur@.subrange(i + 1, j as int));
                    assert(pat =~= seq![pat[0]] + pat.drop_first());
                    lemma_brace_count_concat(seq![pat[0]], pat.drop_first());
                    lemma_brace_count_single(pat[0]);
                    assert(pat[0] == cur@[i as int]);
                    assert(brace_count(pat) >= 1);
                    assert(cur@.subrange(i as int, i + pat.len()) == pat);
                    assert(occurs(cur@, pat));
                    lemma_replace_all_lt(cur@, pat, rep@);
                    assert(brace_count(next@) < brace_count(cur@));
                    assert forall|t: Seq<char>, n: nat|
                        rewrites_to(module@, next@, t, n) implies rewrites_to(
                        module@,
                        orig,
                        t,
                        (n + steps + 1) as nat,
                    ) by {
                        assert(brace_match_at(cur@, i as int));
                        assert(has_brace_match(cur@));
                        assert(rewrites_to(module@, cur@, t, (n + 1) as nat));
                    };
                    steps = steps + 1;
                }
                cur = next;
            },
        }
    }
}

/// The shape of the text that the unique-identifier source yields: 36
/// characters, lowercase hexadecimal digits and hyphens.
pub open spec fn uuid_text(u: Seq<char>) -> bool {
    u.len() == 36 && forall|i: int|
        0 <= i < 36 ==> {
            let c = #[trigger] u[i];
            ('0' <= c && c <= '9') || ('a' <= c && c <= 'f') || c == '-'
        }
}

/// Relies on `getrandom::fill`: on success the buffer holds fresh random
/// bytes.  Randomness admits no contract; a failure is reported as `false`,
/// never a panic.
#[verifier::external_body]
fn fill_random_bytes(out: &mut [u8; 10]) -> (ok: bool) {
    getrandom::fill(out).is_ok()
}

/// Relies on `std::time::SystemTime::now`; `duration_since` and `as_millis`
/// convert its result to the milliseconds since the Unix epoch.  `None` when
/// the clock reads before the epoch; never a panic.
#[verifier::external_body]
fn unix_millis_now() -> (r: Option<u64>) {
    match std::time::SystemTime::now().duration_since(std::time::UNIX_EPOCH) {
        Ok(d) => Some(d.as_millis() as u64),
        Err(_) => None,
    }
}

/// Relies on `uuid::Builder::from_unix_timestamp_millis` and `Uuid`'s
/// `Display` impl: a version-7 identifier built from the given timestamp and
/// bytes, spelled hyphenated — 36 characters of lowercase hexadecimal digits
/// and hyphens.  It touches no clock and no randomness source, so the call
/// cannot panic.
#[verifier::external_body]
fn uuid_from_parts(millis: u64, bytes: &[u8; 10]) -> (r: String)
    ensures
        uuid_text(r@),
{
    uuid::Builder::from_unix_timestamp_millis(millis, bytes).into_uuid().to_string()
}

/// A fresh time-ordered token: a version-7 identifier from the clock and ten
/// random bytes.  When the clock or the randomness source fails, the token
/// degrades (zero timestamp or zero bytes) rather than panicking.
pub(crate) fn fresh_token() -> (r: String)
    ensures
        uuid_text(r@),
{
    let mut bytes: [u8; 10] = [0u8; 10];
    let _ok = fill_random_bytes(&mut bytes);
    let millis: u64 = match unix_millis_now() {
        Some(m) => m,
        None => 0,
    };
    uuid_from_parts(millis, &bytes)
}

/// The fixed prefix of generated temporary names.
pub open spec fn tmp_prefix() -> Seq<char> {
    seq!['_', 't', 'm', 'p', '_']
}

/// The shape of a generated temporary name for `module`: the
/// module-qualified mangling of the temporary prefix and a unique token.
pub open spec fn is_temp_name(n: Seq<char>, module: Seq<char>) -> bool {
    exists|u: Seq<char>| #[trigger] uuid_text(u) && n == mangle_qualified(module, tmp_prefix() + u)
}

/// Produces a fresh, hygienic temporary variable name for `module`: the
/// module-qualified mangling of `_tmp_` followed by a unique token.
pub fn get_temp_variable_name(module: &str) -> (r: String)
    ensures
        is_temp_name(r@, module@),
{
    let id = fresh_token();
    let mut raw = String::new();
    raw.append("_tmp_");
    raw.append(id.as_str());
    let r = string_to_escape_to_c_ansi_id(module, raw.as_str());
    proof {
        reveal_strlit("_tmp_");
        assert("_tmp_"@ =~= tmp_prefix());
        assert(raw@ == tmp_prefix() + id@);
        assert(uuid_text(id@) && r@ == mangle_qualified(module@, tmp_prefix() + id@));
    }
    r
}

} // verus!
