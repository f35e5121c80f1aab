//! Numbers written as decimal or lowercase hexadecimal digits, and the reading
//! and writing of them on byte buffers.

use vstd::prelude::*;

verus! {

/// The base of the digits: 16 for hexadecimal, 10 for decimal.
pub open spec fn radix(hex: bool) -> nat {
    if hex {
        16
    } else {
        10
    }
}

/// The character for a digit below 16: `0`-`9`, then `a`-`f`.
pub open spec fn digit_char(d: nat) -> u8 {
    if d < 10 {
        (48 + d) as u8
    } else {
        (87 + d) as u8
    }
}

/// The value of a digit character in the base, if it is one.
pub open spec fn digit_value(c: u8, hex: bool) -> Option<nat> {
    if 48 <= c <= 57 {
        Some((c - 48) as nat)
    } else if hex && 97 <= c <= 102 {
        Some((c - 87) as nat)
    } else {
        None
    }
}

/// The shortest digits of `n` in the base, most significant first.
pub open spec fn digits_of(n: nat, hex: bool) -> Seq<u8>
    decreases n,
{
    if hex {
        if n < 16 {
            seq![digit_char(n)]
        } else {
            digits_of(n / 16, hex).push(digit_char(n % 16))
        }
    } else {
        if n < 10 {
            seq![digit_char(n)]
        } else {
            digits_of(n / 10, hex).push(digit_char(n % 10))
        }
    }
}

/// The number that a sequence of digits spells in the base.
pub open spec fn value_of(s: Seq<u8>, hex: bool) -> nat
    decreases s.len(),
{
    if s.len() == 0 {
        0
    } else {
        value_of(s.drop_last(), hex) * radix(hex) + match digit_value(s.last(), hex) {
            Some(d) => d,
            None => 0,
        }
    }
}

/// Every element is a digit of the base.
pub open spec fn all_digits(s: Seq<u8>, hex: bool) -> bool {
    forall|k: int| 0 <= k < s.len() ==> #[trigger] digit_value(s[k], hex) is Some
}

/// A digit below the base reads back as itself.
pub proof fn lemma_digit_round_trip(d: nat, hex: bool)
    requires
        d < radix(hex),
    ensures
        digit_value(digit_char(d), hex) == Some(d),
{
}

/// The digits of `n` are digits, at least one, and spell `n`.
pub proof fn lemma_digits_spell(n: nat, hex: bool)
    ensures
        digits_of(n, hex).len() >= 1,
        all_digits(digits_of(n, hex), hex),
        value_of(digits_of(n, hex), hex) == n,
    decreases n,
{
    let r = radix(hex);
    if n >= r {
        let q = if hex {
            n / 16
        } else {
            n / 10
        };
        let d = if hex {
            n % 16
        } else {
            n % 10
        };
        assert(n == q * r + d && d < r);
        lemma_digits_spell(q, hex);
        lemma_digit_round_trip(d, hex);
        let init = digits_of(q, hex);
        let s = digits_of(n, hex);
        assert(s == init.push(digit_char(d)));
        assert(s.drop_last() =~= init);
        assert(s.last() == digit_char(d));
        assert(value_of(s, hex) == value_of(init, hex) * r + d);
        assert(value_of(init, hex) * r == q * r);
        assert forall|k: int| 0 <= k < s.len() implies #[trigger] digit_value(s[k], hex) is Some by {
            if k < init.len() {
                assert(s[k] == init[k]);
            }
        }
    } else {
        lemma_digit_round_trip(n, hex);
        let s = digits_of(n, hex);
        assert(s.drop_last() =~= Seq::<u8>::empty());
        assert(value_of(s.drop_last(), hex) == 0);
    }
}

/// The bytes from `pos` on are the digits of `n` followed by `rest`, and
/// `rest` does not begin with a digit.
pub open spec fn spells_at(s: Seq<u8>, pos: int, n: nat, rest: Seq<u8>, hex: bool) -> bool {
    &&& 0 <= pos <= s.len()
    &&& s.subrange(pos, s.len() as int) == digits_of(n, hex) + rest
    &&& (rest.len() == 0 || digit_value(rest[0], hex) is None)
}

/// Where the digits of `n` stand in `s`, and what follows them.
pub proof fn lemma_spelled_bytes(s: Seq<u8>, pos: int, n: nat, rest: Seq<u8>, hex: bool)
    requires
        spells_at(s, pos, n, rest, hex),
    ensures
        pos + digits_of(n, hex).len() <= s.len(),
        forall|k: int|
            0 <= k < digits_of(n, hex).len() ==> #[trigger] s[pos + k] == digits_of(n, hex)[k],
        pos + digits_of(n, hex).len() < s.len() ==> digit_value(
            s[pos + digits_of(n, hex).len()],
            hex,
        ) is None,
{
    let ds = digits_of(n, hex);
    let tail = s.subrange(pos, s.len() as int);
    assert(tail.len() == ds.len() + rest.len());
    assert forall|k: int| 0 <= k < ds.len() implies #[trigger] s[pos + k] == ds[k] by {
        assert(tail[k] == s[pos + k]);
        assert((ds + rest)[k] == ds[k]);
    }
    if pos + ds.len() < s.len() {
        assert(tail[ds.len() as int] == s[pos + ds.len()]);
        assert((ds + rest)[ds.len() as int] == rest[0]);
    }
}

/// Bytes that agree with `ds` from `pos` on hold each leading part of `ds` there.
proof fn lemma_prefix_matches(s: Seq<u8>, pos: int, ds: Seq<u8>, j: int)
    requires
        0 <= pos,
        0 <= j <= ds.len(),
        pos + j <= s.len(),
        forall|k: int| 0 <= k < ds.len() ==> #[trigger] s[pos + k] == ds[k],
    ensures
        s.subrange(pos, pos + j) == ds.take(j),
{
    assert forall|k: int| 0 <= k < j implies s.subrange(pos, pos + j)[k] == ds.take(j)[k] by {
        assert(s[pos + k] == ds[k]);
    }
    assert(s.subrange(pos, pos + j) =~= ds.take(j));
}

/// A leading part of a digit sequence spells no more than the whole.
pub proof fn lemma_value_prefix(s: Seq<u8>, j: int, hex: bool)
    requires
        0 <= j <= s.len(),
    ensures
        value_of(s.take(j), hex) <= value_of(s, hex),
    decreases s.len(),
{
    if j < s.len() {
        assert(s.drop_last().take(j) =~= s.take(j));
        lemma_value_prefix(s.drop_last(), j, hex);
    } else {
        assert(s.take(j) =~= s);
    }
}

/// The character of a digit below 16.
pub fn char_of(d: u8) -> (r: u8)
    requires
        d < 16,
    ensures
        r == digit_char(d as nat),
{
    if d < 10 {
        48 + d
    } else {
        87 + d
    }
}

/// The value of a digit character in the base, if it is one.
pub fn value_of_digit(c: u8, hex: bool) -> (r: Option<u8>)
    ensures
        r matches Some(d) ==> digit_value(c, hex) == Some(d as nat) && (d as nat) < radix(hex),
        r is None ==> digit_value(c, hex) is None,
{
    if 48 <= c && c <= 57 {
        Some(c - 48)
    } else if hex && 97 <= c && c <= 102 {
        Some(c - 87)
    } else {
        None
    }
}

/// Appends the shortest digits of `n` in the base.
pub fn push_digits(out: &mut Vec<u8>, n: u64, hex: bool)
    ensures
        final(out)@ == old(out)@ + digits_of(n as nat, hex),
    decreases n,
{
    let r: u64 = if hex {
        16
    } else {
        10
    };
    let ghost start = out@;
    if n >= r {
        push_digits(out, n / r, hex);
    }
    out.push(char_of((n % r) as u8));
    proof {
        if n >= r {
            assert(out@ =~= start + digits_of((n / r) as nat, hex).push(digit_char((n % r) as nat)));
        } else {
            assert(out@ =~= start + seq![digit_char(n as nat)]);
        }
    }
}

/// Reads the run of digits of the base that starts at `pos`. When the bytes
/// from `pos` on are the digits of `n` followed by `rest`, and `rest` does not
/// begin with a digit, the result is `n` and the position where `rest` begins.
pub(crate) fn read_digits(s: &[u8], pos: usize, hex: bool, n: Ghost<nat>, rest: Ghost<Seq<u8>>) -> (r:
    Option<(u64, usize)>)
    requires
        pos <= s@.len(),
    ensures
        r matches Some((v, end)) ==> pos < end <= s@.len(),
        spells_at(s@, pos as int, n@, rest@, hex) && n@ <= u64::MAX ==> r == Some(
            (n@ as u64, (pos + digits_of(n@, hex).len()) as usize),
        ),
{
    let ghost expected = spells_at(s@, pos as int, n@, rest@, hex) && n@ <= u64::MAX;
    let ghost ds = digits_of(n@, hex);
    proof {
        lemma_digits_spell(n@, hex);
        if expected {
            lemma_spelled_bytes(s@, pos as int, n@, rest@, hex);
        }
    }
    let base: u128 = if hex {
        16
    } else {
        10
    };
    let mut v: u64 = 0;
    let mut i: usize = pos;
    while i < s.len()
        invariant
            pos <= i <= s@.len(),
            base as nat == radix(hex),
            v as nat == value_of(s@.subrange(pos as int, i as int), hex),
            ds == digits_of(n@, hex),
            all_digits(ds, hex),
            value_of(ds, hex) == n@,
            expected ==> i <= pos + ds.len(),
            expected == (spells_at(s@, pos as int, n@, rest@, hex) && n@ <= u64::MAX),
            expected ==> pos + ds.len() <= s@.len(),
            expected ==> forall|k: int| 0 <= k < ds.len() ==> #[trigger] s@[pos + k] == ds[k],
            expected ==> (pos + ds.len() < s@.len() ==> digit_value(s@[pos + ds.len()], hex) is None),
        ensures
            pos <= i <= s@.len(),
            v as nat == value_of(s@.subrange(pos as int, i as int), hex),
            i < s@.len() ==> digit_value(s@[i as int], hex) is None,
            expected ==> i <= pos + ds.len(),
            expected ==> forall|k: int| 0 <= k < ds.len() ==> #[trigger] s@[pos + k] == ds[k],
        decreases s@.len() - i,
    {
        let d = match value_of_digit(s[i], hex) {
            Some(d) => d,
            None => break,
        };
        proof {
            assert(s@.subrange(pos as int, i + 1).drop_last() =~= s@.subrange(pos as int, i as int));
            assert(s@.subrange(pos as int, i + 1).last() == s@[i as int]);
            assert(value_of(s@.subrange(pos as int, i + 1), hex) == v * radix(hex) + d);
            if expected {
                assert(i < pos + ds.len());
            }
        }
        let next: u128 = v as u128 * base + d as u128;
        if next > u64::MAX as u128 {
            proof {
                if expected {
                    lemma_prefix_matches(s@, pos as int, ds, i + 1 - pos);
                    lemma_value_prefix(ds, i + 1 - pos, hex);
                }
            }
            return None;
        }
        v = next as u64;
        i = i + 1;
    }
    proof {
        if expected {
            if i < pos + ds.len() {
                assert(s@[pos + (i - pos)] == ds[i - pos]);
                assert(digit_value(ds[i - pos], hex) is Some);
            }
            lemma_prefix_matches(s@, pos as int, ds, i - pos);
            assert(ds.take(ds.len() as int) =~= ds);
        }
    }
    if i == pos {
        return None;
    }
    Some((v, i))
}

/// Checks for the byte `c` at `pos`. When the bytes from `pos` on are `c`
/// followed by `rest`, the result is the position where `rest` begins.
pub(crate) fn read_byte(s: &[u8], pos: usize, c: u8, rest: Ghost<Seq<u8>>) -> (r: Option<usize>)
    requires
        pos <= s@.len(),
    ensures
        r matches Some(end) ==> end == pos + 1 && end <= s@.len() && s@[pos as int] == c,
        s@.subrange(pos as int, s@.len() as int) == seq![c] + rest@ ==> r == Some(
            (pos + 1) as usize,
        ),
{
    proof {
        let tail = s@.subrange(pos as int, s@.len() as int);
        assert(tail.len() == s@.len() - pos);
        if tail == seq![c] + rest@ {
            assert(tail[0] == s@[pos as int]);
            assert((seq![c] + rest@)[0] == c);
        }
    }
    if pos < s.len() && s[pos] == c {
        Some(pos + 1)
    } else {
        None
    }
}

/// The bytes from `pos` on are `piece` followed by `rest`: then from
/// `pos + piece.len()` on they are `rest`.
pub proof fn lemma_advance(s: Seq<u8>, pos: int, piece: Seq<u8>, rest: Seq<u8>)
    requires
        0 <= pos <= s.len(),
        s.subrange(pos, s.len() as int) == piece + rest,
    ensures
        pos + piece.len() <= s.len(),
        s.subrange(pos + piece.len(), s.len() as int) == rest,
        s.len() - pos == piece.len() + rest.len(),
{
    let tail = s.subrange(pos, s.len() as int);
    assert(tail.len() == piece.len() + rest.len());
    assert forall|k: int| 0 <= k < rest.len() implies s.subrange(
        pos + piece.len(),
        s.len() as int,
    )[k] == rest[k] by {
        assert(tail[piece.len() + k] == (piece + rest)[piece.len() + k]);
    }
    assert(s.subrange(pos + piece.len(), s.len() as int) =~= rest);
}

/// The numbers of `ls` from the `j`-th on, each written in digits of the base,
/// with `sep` before each but the first of the whole list.
pub open spec fn list_text(ls: Seq<nat>, hex: bool, sep: u8, j: nat) -> Seq<u8>
    decreases ls.len() - j,
{
    if j >= ls.len() {
        seq![]
    } else {
        (if j > 0 {
            seq![sep]
        } else {
            seq![]
        }) + digits_of(ls[j as int], hex) + list_text(ls, hex, sep, j + 1)
    }
}

/// Each number of the list fits 64 bits.
pub open spec fn fits_u64(ls: Seq<nat>) -> bool {
    forall|k: int| 0 <= k < ls.len() ==> #[trigger] ls[k] <= u64::MAX
}

/// The 64-bit numbers as naturals.
pub open spec fn widen(v: Seq<u64>) -> Seq<nat> {
    v.map_values(|x: u64| x as nat)
}

/// Reads numbers written in digits of the base and separated by `sep`,
/// possibly none. When the bytes from `pos` on are the text of `ls` followed
/// by `rest`, and `rest` begins with neither a digit nor `sep`, the result is
/// `ls` and the position where `rest` begins.
pub(crate) fn read_list(
    s: &[u8],
    pos: usize,
    hex: bool,
    sep: u8,
    ls: Ghost<Seq<nat>>,
    rest: Ghost<Seq<u8>>,
) -> (r: Option<(Vec<u64>, usize)>)
    requires
        pos <= s@.len(),
        digit_value(sep, hex) is None,
    ensures
        r matches Some((v, end)) ==> pos <= end <= s@.len(),
        ({
            &&& fits_u64(ls@)
            &&& s@.subrange(pos as int, s@.len() as int) == list_text(ls@, hex, sep, 0) + rest@
            &&& rest@.len() > 0
            &&& rest@[0] != sep
            &&& digit_value(rest@[0], hex) is None
        }) ==> (r matches Some((v, end)) && widen(v@) == ls@ && end == pos + list_text(
            ls@,
            hex,
            sep,
            0,
        ).len()),
{
    let ghost expected = fits_u64(ls@) && s@.subrange(pos as int, s@.len() as int) == list_text(
        ls@,
        hex,
        sep,
        0,
    ) + rest@ && rest@.len() > 0 && rest@[0] != sep && digit_value(rest@[0], hex) is None;
    let ghost text = list_text(ls@, hex, sep, 0);
    let mut out: Vec<u64> = Vec::new();
    if pos >= s.len() || value_of_digit(s[pos], hex).is_none() {
        proof {
            if expected {
                lemma_advance(s@, pos as int, text, rest@);
            }
            if expected && ls@.len() > 0 {
                lemma_digits_spell(ls@[0], hex);
                let d = digits_of(ls@[0], hex);
                assert(text == seq![] + d + list_text(ls@, hex, sep, 1));
                assert((d + list_text(ls@, hex, sep, 1) + rest@)[0] == d[0]);
                assert(s@.subrange(pos as int, s@.len() as int)[0] == s@[pos as int]);
                assert(digit_value(d[0], hex) is Some);
            }
            if expected && ls@.len() == 0 {
                assert(text =~= seq![]);
                assert(widen(out@) =~= ls@);
            }
        }
        return Some((out, pos));
    }
    proof {
        if expected {
            if ls@.len() == 0 {
                assert(text =~= seq![]);
                assert(text + rest@ =~= rest@);
                assert(s@.subrange(pos as int, s@.len() as int)[0] == s@[pos as int]);
            }
            assert(text =~= digits_of(ls@[0], hex) + list_text(ls@, hex, sep, 1));
            assert(text + rest@ =~= digits_of(ls@[0], hex) + list_text(ls@, hex, sep, 1) + rest@);
            assert(widen(out@) =~= ls@.take(0));
        }
    }
    let mut i: usize = pos;
    loop
        invariant
            pos <= i <= s@.len(),
            digit_value(sep, hex) is None,
            text == list_text(ls@, hex, sep, 0),
            expected == (fits_u64(ls@) && s@.subrange(pos as int, s@.len() as int) == text + rest@
                && rest@.len() > 0 && rest@[0] != sep && digit_value(rest@[0], hex) is None),
            expected ==> out@.len() < ls@.len(),
            expected ==> widen(out@) == ls@.take(out@.len() as int),
            expected ==> s@.subrange(i as int, s@.len() as int) == digits_of(
                ls@[out@.len() as int],
                hex,
            ) + list_text(ls@, hex, sep, (out@.len() + 1) as nat) + rest@,
        decreases s@.len() - i,
    {
        let ghost k: int = out@.len() as int;
        let ghost after = list_text(ls@, hex, sep, (k + 1) as nat) + rest@;
        proof {
            if expected {
                assert(digits_of(ls@[k as int], hex) + list_text(ls@, hex, sep, (k + 1) as nat)
                    + rest@ =~= digits_of(ls@[k as int], hex) + after);
                if k + 1 < ls@.len() {
                    assert(list_text(ls@, hex, sep, (k + 1) as nat) =~= seq![sep] + digits_of(
                        ls@[k + 1],
                        hex,
                    ) + list_text(ls@, hex, sep, (k + 2) as nat));
                    assert(after[0] == sep);
                } else {
                    assert(list_text(ls@, hex, sep, (k + 1) as nat) =~= seq![]);
                    assert(after =~= rest@);
                }
            }
        }
        let ghost i0 = i as int;
        let (v, e) = match read_digits(s, i, hex, Ghost(ls@[k as int]), Ghost(after)) {
            Some(x) => x,
            None => {
                return None;
            },
        };
        let ghost prev = out@;
        out.push(v);
        i = e;
        proof {
            if expected {
                lemma_advance(s@, i0, digits_of(ls@[k as int], hex), after);
                assert(widen(out@) =~= ls@.take(out@.len() as int));
            }
        }
        if i < s.len() && s[i] == sep {
            proof {
                if expected {
                    if k + 1 >= ls@.len() {
                        assert(after =~= rest@);
                        assert(s@.subrange(i as int, s@.len() as int)[0] == s@[i as int]);
                    }
                    let nxt = digits_of(ls@[k + 1], hex) + list_text(ls@, hex, sep, (k + 2) as nat) + rest@;
                    assert(after =~= seq![sep] + nxt);
                    lemma_advance(s@, i as int, seq![sep], nxt);
                }
            }
            i = i + 1;
        } else {
            proof {
                if expected {
                    if k + 1 < ls@.len() {
                        assert(s@.subrange(i as int, s@.len() as int)[0] == s@[i as int]);
                    }
                    assert(after =~= rest@);
                    assert(ls@.take(ls@.len() as int) =~= ls@);
                    lemma_advance(s@, pos as int, text, rest@);
                }
            }
            return Some((out, i));
        }
    }
}

/// Checks for the bytes of `tok` at `pos`. When the bytes from `pos` on are
/// `tok` followed by `rest`, the result is the position where `rest` begins.
pub(crate) fn read_token(s: &[u8], pos: usize, tok: &[u8], rest: Ghost<Seq<u8>>) -> (r: Option<usize>)
    requires
        pos <= s@.len(),
    ensures
        r matches Some(end) ==> end == pos + tok@.len() && end <= s@.len(),
        s@.subrange(pos as int, s@.len() as int) == tok@ + rest@ ==> r == Some(
            (pos + tok@.len()) as usize,
        ),
{
    let ghost expected = s@.subrange(pos as int, s@.len() as int) == tok@ + rest@;
    proof {
        if expected {
            lemma_advance(s@, pos as int, tok@, rest@);
        }
    }
    let n = s.len();
    if n - pos < tok.len() {
        return None;
    }
    let mut k: usize = 0;
    while k < tok.len()
        invariant
            n == s@.len(),
            pos + tok@.len() <= s@.len(),
            k <= tok@.len(),
            expected == (s@.subrange(pos as int, s@.len() as int) == tok@ + rest@),
            forall|j: int| 0 <= j < k ==> s@[pos + j] == tok@[j],
        decreases tok@.len() - k,
    {
        proof {
            if expected {
                assert(s@.subrange(pos as int, s@.len() as int)[k as int] == s@[pos + k]);
                assert((tok@ + rest@)[k as int] == tok@[k as int]);
            }
        }
        if s[pos + k] != tok[k] {
            return None;
        }
        k = k + 1;
    }
    Some(pos + k)
}

} // verus!
