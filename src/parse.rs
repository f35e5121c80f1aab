//! Reading record lines back. Each reader takes, as ghost arguments, the
//! value it is expected to find and the text expected after it, and promises
//! to find exactly that value whenever the bytes are that value's text
//! followed by that rest. A parsed record is accepted only if it writes back
//! to the very line it was read from.

use vstd::prelude::*;
use crate::codec::{
    hex_pair,
    id_text,
    id_text_from,
    six_digits,
    timestamp_text,
    octets,
    groups,
    address_text,
    prefix_text,
    flag_char,
    asn_values,
    segment_open,
    segment_list_open,
    segment_close,
    segment_text,
    segments_text,
    path_text,
    direction_char,
    after_prefix,
    after_timestamp,
    after_origin,
    after_id,
    record_text,
    encode_record,
};
use crate::event::{Announcement, AnnouncementView, PathSegment, PathSegmentView, RecordId, path_view};
use crate::net::{IpAddress, Prefix};
use crate::canonical::lemma_record_text_injective;
use crate::text::{
    digit_value,
    digits_of,
    list_text,
    widen,
    lemma_digit_round_trip,
    lemma_digits_spell,
    lemma_advance,
    value_of_digit,
    read_digits,
    read_byte,
    read_list,
    read_token,
};

verus! {

/// The bytes from `pos` on are `piece` followed by `rest`.
pub open spec fn at(s: Seq<u8>, pos: int, piece: Seq<u8>, rest: Seq<u8>) -> bool {
    0 <= pos <= s.len() && s.subrange(pos, s.len() as int) == piece + rest
}

/// Where a piece stands in the bytes, byte by byte.
proof fn lemma_at_bytes(s: Seq<u8>, pos: int, piece: Seq<u8>, rest: Seq<u8>)
    requires
        at(s, pos, piece, rest),
    ensures
        pos + piece.len() <= s.len(),
        forall|k: int| 0 <= k < piece.len() ==> #[trigger] s[pos + k] == piece[k],
        rest.len() > 0 ==> s[pos + piece.len()] == rest[0],
{
    lemma_advance(s, pos, piece, rest);
    let tail = s.subrange(pos, s.len() as int);
    assert forall|k: int| 0 <= k < piece.len() implies #[trigger] s[pos + k] == piece[k] by {
        assert(tail[k] == s[pos + k]);
        assert((piece + rest)[k] == piece[k]);
    }
    if rest.len() > 0 {
        assert(tail[piece.len() as int] == s[pos + piece.len()]);
        assert((piece + rest)[piece.len() as int] == rest[0]);
    }
}

/// Reads two hex digits as a byte.
fn read_hex_pair(s: &[u8], pos: usize, b: Ghost<u8>, rest: Ghost<Seq<u8>>) -> (r: Option<(u8, usize)>)
    requires
        pos <= s@.len(),
    ensures
        r matches Some((_, e)) ==> e == pos + 2 && e <= s@.len(),
        at(s@, pos as int, hex_pair(b@), rest@) ==> r == Some((b@, (pos + 2) as usize)),
{
    let ghost expected = at(s@, pos as int, hex_pair(b@), rest@);
    proof {
        if expected {
            lemma_at_bytes(s@, pos as int, hex_pair(b@), rest@);
            assert(s@[pos + 0] == hex_pair(b@)[0]);
            assert(s@[pos + 1] == hex_pair(b@)[1]);
            lemma_digit_round_trip((b@ / 16) as nat, true);
            lemma_digit_round_trip((b@ % 16) as nat, true);
        }
    }
    if s.len() - pos < 2 {
        return None;
    }
    let hi = match value_of_digit(s[pos], true) {
        Some(d) => d,
        None => {
            return None;
        },
    };
    let lo = match value_of_digit(s[pos + 1], true) {
        Some(d) => d,
        None => {
            return None;
        },
    };
    Some((hi * 16 + lo, pos + 2))
}

/// Reads the text of an identifier.
fn read_id(s: &[u8], pos: usize, id: Ghost<Seq<u8>>, rest: Ghost<Seq<u8>>) -> (r: Option<
    (RecordId, usize),
>)
    requires
        pos <= s@.len(),
    ensures
        r matches Some((_, e)) ==> pos <= e <= s@.len(),
        id@.len() == 16 && at(s@, pos as int, id_text(id@), rest@) ==> (r matches Some((x, e)) && x@
            == id@ && e == pos + id_text(id@).len()),
{
    let ghost expected = id@.len() == 16 && at(s@, pos as int, id_text(id@), rest@);
    proof {
        if expected {
            lemma_advance(s@, pos as int, id_text(id@), rest@);
        }
    }
    let mut out: RecordId = [0u8; 16];
    let mut i: usize = pos;
    let mut k: usize = 0;
    while k < 16
        invariant
            pos <= i <= s@.len(),
            k <= 16,
            expected == (id@.len() == 16 && at(s@, pos as int, id_text(id@), rest@)),
            expected ==> at(s@, i as int, id_text_from(id@, k as nat), rest@),
            expected ==> forall|j: int| 0 <= j < k ==> out@[j] == id@[j],
        decreases 16 - k,
    {
        let ghost after = hex_pair(id@[k as int]) + id_text_from(id@, (k + 1) as nat) + rest@;
        if k == 4 || k == 6 || k == 8 || k == 10 {
            proof {
                if expected {
                    assert(id_text_from(id@, k as nat) + rest@ =~= seq![45u8] + after);
                }
            }
            i = match read_byte(s, i, 45, Ghost(after)) {
                Some(e) => e,
                None => {
                    return None;
                },
            };
            proof {
                if expected {
                    lemma_advance(s@, i - 1, seq![45u8], after);
                }
            }
        } else {
            proof {
                if expected {
                    assert(id_text_from(id@, k as nat) + rest@ =~= after);
                }
            }
        }
        let ghost more = id_text_from(id@, (k + 1) as nat) + rest@;
        proof {
            if expected {
                assert(after =~= hex_pair(id@[k as int]) + more);
            }
        }
        let (b, e) = match read_hex_pair(s, i, Ghost(id@[k as int]), Ghost(more)) {
            Some(x) => x,
            None => {
                return None;
            },
        };
        proof {
            if expected {
                lemma_advance(s@, i as int, hex_pair(id@[k as int]), more);
            }
        }
        out[k] = b;
        i = e;
        k = k + 1;
    }
    proof {
        if expected {
            assert(id_text_from(id@, 16) =~= seq![]);
            assert(seq![] + rest@ =~= rest@);
            lemma_advance(s@, i as int, seq![], rest@);
            assert(out@ =~= id@);
        }
    }
    Some((out, i))
}

/// Reads one decimal digit.
fn read_decimal_digit(s: &[u8], i: usize) -> (r: Option<u64>)
    requires
        i < s@.len(),
    ensures
        r matches Some(d) ==> digit_value(s@[i as int], false) == Some(d as nat) && d < 10,
        r is None ==> digit_value(s@[i as int], false) is None,
{
    match value_of_digit(s[i], false) {
        Some(d) => Some(d as u64),
        None => None,
    }
}

/// Six decimal digits of a number below a million spell it back.
pub proof fn lemma_six_digits(m: nat)
    requires
        m < 1_000_000,
    ensures
        ({
            let s = six_digits(m);
            let d = |k: int| digit_value(s[k], false).unwrap();
            &&& forall|k: int| 0 <= k < 6 ==> #[trigger] digit_value(s[k], false) is Some
            &&& ((((d(0) * 10 + d(1)) * 10 + d(2)) * 10 + d(3)) * 10 + d(4)) * 10 + d(5) == m
        }),
{
    let q1 = m / 10;
    let q2 = q1 / 10;
    let q3 = q2 / 10;
    let q4 = q3 / 10;
    let q5 = q4 / 10;
    lemma_digit_round_trip(q5 % 10, false);
    lemma_digit_round_trip(q4 % 10, false);
    lemma_digit_round_trip(q3 % 10, false);
    lemma_digit_round_trip(q2 % 10, false);
    lemma_digit_round_trip(q1 % 10, false);
    lemma_digit_round_trip(m % 10, false);
    assert(q5 < 10);
}

/// Ten to the power `j`, for `j` up to six.
pub open spec fn power_of_ten(j: int) -> int {
    if j <= 0 {
        1
    } else if j == 1 {
        10
    } else if j == 2 {
        100
    } else if j == 3 {
        1000
    } else if j == 4 {
        10000
    } else if j == 5 {
        100000
    } else {
        1000000
    }
}

/// Reads six decimal digits as a number below a million.
fn read_six(s: &[u8], pos: usize, m: Ghost<nat>, rest: Ghost<Seq<u8>>) -> (r: Option<(u64, usize)>)
    requires
        pos <= s@.len(),
    ensures
        r matches Some((_, e)) ==> e == pos + 6 && e <= s@.len(),
        m@ < 1_000_000 && at(s@, pos as int, six_digits(m@), rest@) ==> r == Some(
            (m@ as u64, (pos + 6) as usize),
        ),
{
    let ghost expected = m@ < 1_000_000 && at(s@, pos as int, six_digits(m@), rest@);
    proof {
        if expected {
            lemma_at_bytes(s@, pos as int, six_digits(m@), rest@);
            lemma_six_digits(m@);
            assert(s@[pos + 0] == six_digits(m@)[0]);
            assert(s@[pos + 1] == six_digits(m@)[1]);
            assert(s@[pos + 2] == six_digits(m@)[2]);
            assert(s@[pos + 3] == six_digits(m@)[3]);
            assert(s@[pos + 4] == six_digits(m@)[4]);
            assert(s@[pos + 5] == six_digits(m@)[5]);
        }
    }
    let n = s.len();
    if n - pos < 6 {
        return None;
    }
    let mut v: u64 = 0;
    let mut j: usize = 0;
    while j < 6
        invariant
            n == s@.len(),
            pos + 6 <= s@.len(),
            j <= 6,
            v < power_of_ten(j as int),
            expected == (m@ < 1_000_000 && at(s@, pos as int, six_digits(m@), rest@)),
            expected ==> forall|k: int| 0 <= k < 6 ==> #[trigger] s@[pos + k] == six_digits(m@)[k],
            expected ==> {
                let s6 = six_digits(m@);
                let d = |k: int| digit_value(s6[k], false).unwrap();
                &&& forall|k: int| 0 <= k < 6 ==> #[trigger] digit_value(s6[k], false) is Some
                &&& ((((d(0) * 10 + d(1)) * 10 + d(2)) * 10 + d(3)) * 10 + d(4)) * 10 + d(5) == m@
                &&& v == (if j == 0 {
                    0
                } else if j == 1 {
                    d(0)
                } else if j == 2 {
                    d(0) * 10 + d(1)
                } else if j == 3 {
                    (d(0) * 10 + d(1)) * 10 + d(2)
                } else if j == 4 {
                    ((d(0) * 10 + d(1)) * 10 + d(2)) * 10 + d(3)
                } else if j == 5 {
                    (((d(0) * 10 + d(1)) * 10 + d(2)) * 10 + d(3)) * 10 + d(4)
                } else {
                    m@
                })
            },
        decreases 6 - j,
    {
        let d = match read_decimal_digit(s, pos + j) {
            Some(d) => d,
            None => {
                return None;
            },
        };
        proof {
            if expected {
                assert(s@[pos + j as int] == six_digits(m@)[j as int]);
            }
        }
        v = v * 10 + d;
        j = j + 1;
    }
    Some((v, pos + 6))
}

/// Reads a timestamp written as seconds with six decimals.
fn read_timestamp(s: &[u8], pos: usize, t: Ghost<u64>, rest: Ghost<Seq<u8>>) -> (r: Option<
    (u64, usize),
>)
    requires
        pos <= s@.len(),
    ensures
        r matches Some((_, e)) ==> pos <= e <= s@.len(),
        at(s@, pos as int, timestamp_text(t@), rest@) ==> r == Some(
            (t@, (pos + timestamp_text(t@).len()) as usize),
        ),
{
    let ghost expected = at(s@, pos as int, timestamp_text(t@), rest@);
    let _n = s.len();
    let ghost secs = (t@ / 1_000_000) as nat;
    let ghost m = (t@ % 1_000_000) as nat;
    let ghost r1 = seq![46u8] + six_digits(m) + rest@;
    let ghost r2 = six_digits(m) + rest@;
    proof {
        if expected {
            lemma_advance(s@, pos as int, timestamp_text(t@), rest@);
            assert(timestamp_text(t@) + rest@ =~= digits_of(secs, false) + r1);
            assert(r1[0] == 46u8);
        }
    }
    let (sec, i) = match read_digits(s, pos, false, Ghost(secs), Ghost(r1)) {
        Some(x) => x,
        None => {
            return None;
        },
    };
    proof {
        if expected {
            lemma_advance(s@, pos as int, digits_of(secs, false), r1);
            assert(r1 =~= seq![46u8] + r2);
        }
    }
    let ghost i1 = i as int;
    let i = match read_byte(s, i, 46, Ghost(r2)) {
        Some(e) => e,
        None => {
            return None;
        },
    };
    proof {
        if expected {
            lemma_advance(s@, i1, seq![46u8], r2);
        }
    }
    let (micros, e) = match read_six(s, i, Ghost(m), rest) {
        Some(x) => x,
        None => {
            return None;
        },
    };
    let total: u128 = sec as u128 * 1_000_000 + micros as u128;
    if total > u64::MAX as u128 {
        return None;
    }
    proof {
        if expected {
            lemma_advance(s@, i as int, six_digits(m), rest@);
        }
    }
    Some((total as u64, e))
}

/// Reads `t` or `f`.
fn read_flag(s: &[u8], pos: usize, b: Ghost<bool>, rest: Ghost<Seq<u8>>) -> (r: Option<(bool, usize)>)
    requires
        pos <= s@.len(),
    ensures
        r matches Some((_, e)) ==> e == pos + 1 && e <= s@.len(),
        at(s@, pos as int, seq![flag_char(b@)], rest@) ==> r == Some((b@, (pos + 1) as usize)),
{
    proof {
        if at(s@, pos as int, seq![flag_char(b@)], rest@) {
            lemma_at_bytes(s@, pos as int, seq![flag_char(b@)], rest@);
            assert(s@[pos + 0] == flag_char(b@));
        }
    }
    if pos >= s.len() {
        None
    } else if s[pos] == 116 {
        Some((true, pos + 1))
    } else if s[pos] == 102 {
        Some((false, pos + 1))
    } else {
        None
    }
}

/// Decimal digits are hexadecimal digits too.
pub proof fn lemma_decimal_is_hex(c: u8)
    ensures
        digit_value(c, false) is Some ==> digit_value(c, true) is Some,
{
}

/// A list of two or more numbers begins with the first, then the separator.
pub proof fn lemma_list_head(ls: Seq<nat>, hex: bool, sep: u8)
    requires
        ls.len() >= 2,
    ensures
        list_text(ls, hex, sep, 0) == digits_of(ls[0], hex) + (seq![sep] + digits_of(ls[1], hex)
            + list_text(ls, hex, sep, 2)),
{
    assert(list_text(ls, hex, sep, 1) == seq![sep] + digits_of(ls[1], hex) + list_text(
        ls,
        hex,
        sep,
        2,
    ));
    assert(list_text(ls, hex, sep, 0) =~= digits_of(ls[0], hex) + list_text(ls, hex, sep, 1));
}

/// Tells an IPv6 address from an IPv4 one by what follows its first run of
/// hexadecimal digits: a colon or a dot.
fn is_v6_at(s: &[u8], pos: usize, a: Ghost<IpAddress>, rest: Ghost<Seq<u8>>) -> (r: Option<bool>)
    requires
        pos <= s@.len(),
    ensures
        at(s@, pos as int, address_text(a@), rest@) ==> r == Some(a@ is V6),
{
    let ghost expected = at(s@, pos as int, address_text(a@), rest@);
    let ghost hex = a@ is V6;
    let ghost sep: u8 = if hex {
        58
    } else {
        46
    };
    let ghost ls = match a@ {
        IpAddress::V4(x) => octets(x),
        IpAddress::V6(x) => groups(x),
    };
    let ghost ds = digits_of(ls[0], hex);
    let ghost tail = seq![sep] + digits_of(ls[1], hex) + list_text(ls, hex, sep, 2) + rest@;
    proof {
        lemma_digits_spell(ls[0], hex);
        if expected {
            lemma_list_head(ls, hex, sep);
            assert(address_text(a@) + rest@ =~= ds + tail);
            lemma_at_bytes(s@, pos as int, ds, tail);
        }
    }
    let mut i: usize = pos;
    while i < s.len() && value_of_digit(s[i], true).is_some()
        invariant
            pos <= i <= s@.len(),
            expected ==> i <= pos + ds.len(),
            expected ==> pos + ds.len() < s@.len(),
            expected ==> forall|k: int| 0 <= k < ds.len() ==> #[trigger] s@[pos + k] == ds[k],
            expected ==> s@[pos + ds.len()] == sep,
            forall|k: int| 0 <= k < ds.len() ==> #[trigger] digit_value(ds[k], hex) is Some,
            sep == 58 || sep == 46,
        decreases s@.len() - i,
    {
        proof {
            if expected && i == pos + ds.len() {
                assert(s@[i as int] == sep);
            }
        }
        i = i + 1;
    }
    proof {
        if expected && i < pos + ds.len() {
            assert(s@[pos + (i - pos)] == ds[i - pos]);
            assert(digit_value(ds[i - pos], hex) is Some);
            lemma_decimal_is_hex(ds[i - pos]);
        }
    }
    if i >= s.len() {
        None
    } else if s[i] == 58 {
        Some(true)
    } else if s[i] == 46 {
        Some(false)
    } else {
        None
    }
}

/// The octets of an IPv4 address are bytes and make it up again.
pub proof fn lemma_octets(x: u32)
    ensures
        ({
            let o = octets(x);
            &&& forall|k: int| 0 <= k < 4 ==> #[trigger] o[k] <= 255
            &&& o[0] * 16777216 + o[1] * 65536 + o[2] * 256 + o[3] == x
        }),
{
    let a = x as nat;
    let q1 = a / 256;
    let q2 = q1 / 256;
    let q3 = q2 / 256;
    assert(q3 < 256);
}

/// The groups of an IPv6 address are 16-bit and make it up again.
pub proof fn lemma_groups(x: u128)
    ensures
        ({
            let g = groups(x);
            &&& forall|k: int| 0 <= k < 8 ==> #[trigger] g[k] <= 65535
            &&& ((((((g[0] * 65536 + g[1]) * 65536 + g[2]) * 65536 + g[3]) * 65536 + g[4]) * 65536
                + g[5]) * 65536 + g[6]) * 65536 + g[7] == x
        }),
{
    let a = x as nat;
    let q1 = a / 65536;
    let q2 = q1 / 65536;
    let q3 = q2 / 65536;
    let q4 = q3 / 65536;
    let q5 = q4 / 65536;
    let q6 = q5 / 65536;
    let q7 = q6 / 65536;
    assert(q7 < 65536);
}

/// Reads `address/length`.
fn read_prefix(s: &[u8], pos: usize, p: Ghost<Prefix>, rest: Ghost<Seq<u8>>) -> (r: Option<
    (Prefix, usize),
>)
    requires
        pos <= s@.len(),
    ensures
        r matches Some((_, e)) ==> pos <= e <= s@.len(),
        ({
            &&& p@.wf()
            &&& at(s@, pos as int, prefix_text(p@), rest@)
            &&& rest@.len() > 0
            &&& digit_value(rest@[0], false) is None
        }) ==> r == Some((p@, (pos + prefix_text(p@).len()) as usize)),
{
    let _n = s.len();
    let ghost expected = p@.wf() && at(s@, pos as int, prefix_text(p@), rest@) && rest@.len() > 0
        && digit_value(rest@[0], false) is None;
    let ghost after_addr = seq![47u8] + digits_of(p@.len as nat, false) + rest@;
    let ghost after_slash = digits_of(p@.len as nat, false) + rest@;
    let ghost ls = match p@.addr {
        IpAddress::V4(x) => octets(x),
        IpAddress::V6(x) => groups(x),
    };
    proof {
        match p@.addr {
            IpAddress::V4(x) => lemma_octets(x),
            IpAddress::V6(x) => lemma_groups(x),
        }
        if expected {
            assert(prefix_text(p@) + rest@ =~= address_text(p@.addr) + after_addr);
            lemma_advance(s@, pos as int, prefix_text(p@), rest@);
            assert(after_addr[0] == 47u8);
            assert(after_addr =~= seq![47u8] + after_slash);
        }
    }
    let v6 = match is_v6_at(s, pos, Ghost(p@.addr), Ghost(after_addr)) {
        Some(b) => b,
        None => {
            return None;
        },
    };
    let addr: IpAddress;
    let i: usize;
    let width: u8;
    if v6 {
        let (g, e) = match read_list(s, pos, true, 58, Ghost(ls), Ghost(after_addr)) {
            Some(x) => x,
            None => {
                return None;
            },
        };
        if g.len() != 8 {
            return None;
        }
        if g[0] > 65535 || g[1] > 65535 || g[2] > 65535 || g[3] > 65535 || g[4] > 65535 || g[5]
            > 65535 || g[6] > 65535 || g[7] > 65535 {
            return None;
        }
        let a: u128 = ((((((g[0] as u128 * 65536 + g[1] as u128) * 65536 + g[2] as u128) * 65536
            + g[3] as u128) * 65536 + g[4] as u128) * 65536 + g[5] as u128) * 65536 + g[6] as u128)
            * 65536 + g[7] as u128;
        proof {
            if expected {
                assert(g@[0] as nat == ls[0] && g@[1] as nat == ls[1] && g@[2] as nat == ls[2]
                    && g@[3] as nat == ls[3] && g@[4] as nat == ls[4] && g@[5] as nat == ls[5]
                    && g@[6] as nat == ls[6] && g@[7] as nat == ls[7]) by {
                    assert(widen(g@)[0] == ls[0]);
                    assert(widen(g@)[1] == ls[1]);
                    assert(widen(g@)[2] == ls[2]);
                    assert(widen(g@)[3] == ls[3]);
                    assert(widen(g@)[4] == ls[4]);
                    assert(widen(g@)[5] == ls[5]);
                    assert(widen(g@)[6] == ls[6]);
                    assert(widen(g@)[7] == ls[7]);
                }
            }
        }
        addr = IpAddress::V6(a);
        i = e;
        width = 128;
    } else {
        let (o, e) = match read_list(s, pos, false, 46, Ghost(ls), Ghost(after_addr)) {
            Some(x) => x,
            None => {
                return None;
            },
        };
        if o.len() != 4 {
            return None;
        }
        if o[0] > 255 || o[1] > 255 || o[2] > 255 || o[3] > 255 {
            return None;
        }
        let a: u32 = (o[0] * 16777216 + o[1] * 65536 + o[2] * 256 + o[3]) as u32;
        proof {
            if expected {
                assert(widen(o@)[0] == ls[0]);
                assert(widen(o@)[1] == ls[1]);
                assert(widen(o@)[2] == ls[2]);
                assert(widen(o@)[3] == ls[3]);
            }
        }
        addr = IpAddress::V4(a);
        i = e;
        width = 32;
    }
    proof {
        if expected {
            lemma_advance(s@, pos as int, address_text(p@.addr), after_addr);
        }
    }
    let ghost i1 = i as int;
    let i = match read_byte(s, i, 47, Ghost(after_slash)) {
        Some(e) => e,
        None => {
            return None;
        },
    };
    proof {
        if expected {
            lemma_advance(s@, i1, seq![47u8], after_slash);
        }
    }
    let (len, e) = match read_digits(s, i, false, Ghost(p@.len as nat), rest) {
        Some(x) => x,
        None => {
            return None;
        },
    };
    if len > width as u64 {
        return None;
    }
    proof {
        if expected {
            lemma_advance(s@, i as int, digits_of(p@.len as nat, false), rest@);
            lemma_advance(s@, pos as int, prefix_text(p@), rest@);
        }
    }
    Some((Prefix { addr, len: len as u8 }, e))
}

/// Reads one segment of an AS path.
#[verifier::loop_isolation(false)]
fn read_segment(s: &[u8], pos: usize, g: Ghost<PathSegmentView>, rest: Ghost<Seq<u8>>) -> (r: Option<
    (PathSegment, usize),
>)
    requires
        pos <= s@.len(),
    ensures
        r matches Some((_, e)) ==> pos <= e <= s@.len(),
        at(s@, pos as int, segment_text(g@), rest@) ==> (r matches Some((x, e)) && x@ == g@ && e
            == pos + segment_text(g@).len()),
{
    let _n = s.len();
    let ghost expected = at(s@, pos as int, segment_text(g@), rest@);
    let ghost list = list_text(asn_values(g@.asns), false, 44, 0);
    let ghost r6 = segment_close() + rest@;
    let ghost r5 = list + r6;
    let ghost r4 = segment_list_open() + r5;
    let ghost r3 = seq![flag_char(g@.confederated)] + r4;
    let ghost r2 = seq![44u8] + r3;
    let ghost r1 = seq![flag_char(g@.sequence)] + r2;
    proof {
        if expected {
            assert(segment_text(g@) + rest@ =~= segment_open() + r1);
            lemma_advance(s@, pos as int, segment_text(g@), rest@);
        }
    }
    let i = match read_token(s, pos, &[34u8, 34, 40], Ghost(r1)) {
        Some(e) => e,
        None => {
            return None;
        },
    };
    proof {
        if expected {
            lemma_advance(s@, pos as int, segment_open(), r1);
        }
    }
    let (sequence, i) = match read_flag(s, i, Ghost(g@.sequence), Ghost(r2)) {
        Some(x) => x,
        None => {
            return None;
        },
    };
    proof {
        if expected {
            lemma_advance(s@, i - 1, seq![flag_char(g@.sequence)], r2);
        }
    }
    let ghost i2 = i as int;
    let i = match read_byte(s, i, 44, Ghost(r3)) {
        Some(e) => e,
        None => {
            return None;
        },
    };
    proof {
        if expected {
            lemma_advance(s@, i2, seq![44u8], r3);
        }
    }
    let (confederated, i) = match read_flag(s, i, Ghost(g@.confederated), Ghost(r4)) {
        Some(x) => x,
        None => {
            return None;
        },
    };
    proof {
        if expected {
            lemma_advance(s@, i - 1, seq![flag_char(g@.confederated)], r4);
        }
    }
    let ghost i4 = i as int;
    let i = match read_token(s, i, &[44u8, 92, 34, 34, 123], Ghost(r5)) {
        Some(e) => e,
        None => {
            return None;
        },
    };
    proof {
        if expected {
            lemma_advance(s@, i4, segment_list_open(), r5);
            assert(r6[0] == 125u8);
            assert forall|k: int| 0 <= k < asn_values(g@.asns).len() implies #[trigger] asn_values(
                g@.asns,
            )[k] <= u64::MAX by {}
        }
    }
    let (wide, e) = match read_list(s, i, false, 44, Ghost(asn_values(g@.asns)), Ghost(r6)) {
        Some(x) => x,
        None => {
            return None;
        },
    };
    proof {
        if expected {
            lemma_advance(s@, i as int, list, r6);
        }
    }
    let mut asns: Vec<u32> = Vec::new();
    let mut k: usize = 0;
    while k < wide.len()
        invariant
            k <= wide@.len(),
            asns@.len() == k,
            forall|j: int| 0 <= j < k ==> asns@[j] as u64 == wide@[j],
        decreases wide@.len() - k,
    {
        if wide[k] > u32::MAX as u64 {
            proof {
                if expected {
                    assert(widen(wide@)[k as int] == asn_values(g@.asns)[k as int]);
                }
            }
            return None;
        }
        asns.push(wide[k] as u32);
        k = k + 1;
    }
    let end = match read_token(s, e, &[125u8, 92, 34, 34, 41, 34, 34], rest) {
        Some(x) => x,
        None => {
            return None;
        },
    };
    proof {
        if expected {
            assert forall|j: int| 0 <= j < asns@.len() implies asns@[j] == g@.asns[j] by {
                assert(widen(wide@)[j] == asn_values(g@.asns)[j]);
            }
            assert(asns@ =~= g@.asns);
            lemma_advance(s@, e as int, segment_close(), rest@);
            lemma_advance(s@, pos as int, segment_text(g@), rest@);
        }
    }
    Some((PathSegment { sequence, confederated, asns }, end))
}

/// Reads a whole AS path.
fn read_path(s: &[u8], pos: usize, segs: Ghost<Seq<PathSegmentView>>, rest: Ghost<Seq<u8>>) -> (r:
    Option<(Vec<PathSegment>, usize)>)
    requires
        pos <= s@.len(),
    ensures
        r matches Some((_, e)) ==> pos <= e <= s@.len(),
        at(s@, pos as int, path_text(segs@), rest@) ==> (r matches Some((v, e)) && path_view(v@)
            == segs@ && e == pos + path_text(segs@).len()),
{
    let _n = s.len();
    let ghost expected = at(s@, pos as int, path_text(segs@), rest@);
    let ghost tail = seq![125u8, 34] + rest@;
    let ghost r0 = segments_text(segs@, 0) + tail;
    proof {
        if expected {
            assert(path_text(segs@) + rest@ =~= seq![34u8, 123] + r0);
            lemma_advance(s@, pos as int, path_text(segs@), rest@);
        }
    }
    let mut i = match read_token(s, pos, &[34u8, 123], Ghost(r0)) {
        Some(e) => e,
        None => {
            return None;
        },
    };
    proof {
        if expected {
            lemma_advance(s@, pos as int, seq![34u8, 123], r0);
        }
    }
    let mut out: Vec<PathSegment> = Vec::new();
    if i < s.len() && s[i] == 125 {
        proof {
            if expected && segs@.len() > 0 {
                let first = segment_text(segs@[0]);
                assert(r0 =~= first + (segments_text(segs@, 1) + tail));
                lemma_at_bytes(s@, i as int, first, segments_text(segs@, 1) + tail);
                assert(s@[i + 0] == first[0]);
            }
            if expected {
                assert(segments_text(segs@, 0) =~= seq![]);
                assert(r0 =~= tail);
                assert(path_view(out@) =~= segs@);
            }
        }
    } else {
        proof {
            if expected && segs@.len() == 0 {
                assert(r0 =~= tail);
                assert(seq![] + tail =~= tail);
                lemma_at_bytes(s@, i as int, seq![], tail);
                assert(s@[i + 0] == tail[0]);
            }
            if expected {
                assert(r0 =~= segment_text(segs@[0]) + segments_text(segs@, 1) + tail);
                assert(path_view(out@) =~= segs@.take(0));
            }
        }
        loop
            invariant_except_break
                expected ==> out@.len() < segs@.len(),
                expected ==> path_view(out@) == segs@.take(out@.len() as int),
                expected ==> at(
                    s@,
                    i as int,
                    segment_text(segs@[out@.len() as int]) + segments_text(
                        segs@,
                        (out@.len() + 1) as nat,
                    ),
                    tail,
                ),
            invariant
                pos <= i <= s@.len(),
                expected == at(s@, pos as int, path_text(segs@), rest@),
                tail == seq![125u8, 34] + rest@,
            ensures
                pos <= i <= s@.len(),
                expected ==> path_view(out@) == segs@,
                expected ==> s@.subrange(i as int, s@.len() as int) == tail,
            decreases s@.len() - i,
        {
            let ghost k: int = out@.len() as int;
            let ghost after = segments_text(segs@, (k + 1) as nat) + tail;
            proof {
                if expected {
                    assert(segment_text(segs@[k]) + segments_text(segs@, (k + 1) as nat) + tail
                        =~= segment_text(segs@[k]) + after);
                }
            }
            let ghost i0 = i as int;
            let (seg, e) = match read_segment(s, i, Ghost(segs@[k]), Ghost(after)) {
                Some(x) => x,
                None => {
                    return None;
                },
            };
            out.push(seg);
            i = e;
            proof {
                if expected {
                    lemma_advance(s@, i0, segment_text(segs@[k]), after);
                    assert(path_view(out@) =~= segs@.take(out@.len() as int));
                }
            }
            if i < s.len() && s[i] == 44 {
                proof {
                    if expected {
                        if k + 1 >= segs@.len() {
                            assert(after =~= tail);
                            assert(seq![] + tail =~= tail);
                            lemma_at_bytes(s@, i as int, seq![], tail);
                            assert(s@[i + 0] == tail[0]);
                        }
                        let nxt = segment_text(segs@[k + 1]) + segments_text(segs@, (k + 2) as nat);
                        assert(segments_text(segs@, (k + 1) as nat) =~= seq![44u8] + segment_text(
                            segs@[k + 1],
                        ) + segments_text(segs@, (k + 2) as nat));
                        assert(after =~= seq![44u8] + (nxt + tail));
                        lemma_advance(s@, i as int, seq![44u8], nxt + tail);
                    }
                }
                i = i + 1;
            } else {
                proof {
                    if expected {
                        if k + 1 < segs@.len() {
                            let nxt = segment_text(segs@[k + 1]) + segments_text(
                                segs@,
                                (k + 2) as nat,
                            );
                            assert(segments_text(segs@, (k + 1) as nat) =~= seq![44u8]
                                + segment_text(segs@[k + 1]) + segments_text(segs@, (k + 2) as nat));
                            assert(after =~= seq![44u8] + (nxt + tail));
                            lemma_at_bytes(s@, i as int, seq![44u8], nxt + tail);
                            assert(s@[i + 0] == 44u8);
                        }
                        assert(after =~= tail);
                        assert(segs@.take(segs@.len() as int) =~= segs@);
                        assert(path_view(out@) == segs@.take(out@.len() as int));
                    }
                }
                break ;
            }
        }
    }
    let ghost i_end = i as int;
    let end = match read_token(s, i, &[125u8, 34], rest) {
        Some(x) => x,
        None => {
            return None;
        },
    };
    proof {
        if expected {
            lemma_advance(s@, i_end, seq![125u8, 34], rest@);
            lemma_advance(s@, pos as int, path_text(segs@), rest@);
        }
    }
    Some((out, end))
}

/// Reads the origin and the direction that follow a record's identifier.
fn read_origin_direction(s: &[u8], pos: usize, w: Ghost<AnnouncementView>) -> (r: Option<
    (u32, bool, usize),
>)
    requires
        pos <= s@.len(),
    ensures
        r matches Some((_, _, e)) ==> pos <= e <= s@.len(),
        at(s@, pos as int, after_id(w@), seq![]) ==> (r matches Some((o, d, e)) && o == w@.origin
            && d == w@.withdrawal && at(
            s@,
            e as int,
            timestamp_text(w@.timestamp) + after_timestamp(w@),
            seq![],
        )),
{
    let _n = s.len();
    let ghost expected = at(s@, pos as int, after_id(w@), seq![]);
    let ghost origin_digits = digits_of(w@.origin as nat, false);
    let ghost r1 = origin_digits + after_origin(w@);
    let ghost r3 = timestamp_text(w@.timestamp) + after_timestamp(w@);
    let ghost r2 = seq![direction_char(w@.withdrawal)] + (seq![44u8] + r3);
    proof {
        if expected {
            assert(after_id(w@) + seq![] =~= seq![44u8] + r1);
            assert(after_origin(w@) =~= seq![44u8] + r2);
            assert(after_origin(w@)[0] == 44u8);
        }
    }
    let i = match read_byte(s, pos, 44, Ghost(r1)) {
        Some(e) => e,
        None => {
            return None;
        },
    };
    proof {
        if expected {
            lemma_advance(s@, pos as int, seq![44u8], r1);
        }
    }
    let (origin, e) = match read_digits(s, i, false, Ghost(w@.origin as nat), Ghost(after_origin(w@))) {
        Some(x) => x,
        None => {
            return None;
        },
    };
    if origin > u32::MAX as u64 {
        return None;
    }
    proof {
        if expected {
            lemma_advance(s@, i as int, origin_digits, after_origin(w@));
        }
    }
    let i = match read_byte(s, e, 44, Ghost(r2)) {
        Some(x) => x,
        None => {
            return None;
        },
    };
    proof {
        if expected {
            lemma_advance(s@, e as int, seq![44u8], r2);
            lemma_at_bytes(s@, i as int, seq![direction_char(w@.withdrawal)], seq![44u8] + r3);
            assert(s@[i + 0] == direction_char(w@.withdrawal));
        }
    }
    if i >= s.len() {
        return None;
    }
    let withdrawal = if s[i] == 48 {
        false
    } else if s[i] == 49 {
        true
    } else {
        return None;
    };
    proof {
        if expected {
            lemma_advance(s@, i as int, seq![direction_char(w@.withdrawal)], seq![44u8] + r3);
        }
    }
    let ghost i1 = i as int + 1;
    let i = match read_byte(s, i + 1, 44, Ghost(r3)) {
        Some(x) => x,
        None => {
            return None;
        },
    };
    proof {
        if expected {
            lemma_advance(s@, i1, seq![44u8], r3);
            assert(r3 + seq![] =~= r3);
        }
    }
    Some((origin as u32, withdrawal, i))
}

/// Reads the timestamp, prefix and AS path that end a record line.
fn read_tail_fields(s: &[u8], pos: usize, w: Ghost<AnnouncementView>) -> (r: Option<
    (u64, Prefix, Vec<PathSegment>),
>)
    requires
        pos <= s@.len(),
    ensures
        w@.prefix.wf() && at(
            s@,
            pos as int,
            timestamp_text(w@.timestamp) + after_timestamp(w@),
            seq![],
        ) ==> (r matches Some((t, p, path)) && t == w@.timestamp && p == w@.prefix && path_view(
            path@,
        ) == w@.as_path),
{
    let _n = s.len();
    let ghost expected = w@.prefix.wf() && at(
        s@,
        pos as int,
        timestamp_text(w@.timestamp) + after_timestamp(w@),
        seq![],
    );
    let ghost r4 = prefix_text(w@.prefix) + after_prefix(w@);
    let ghost r5 = path_text(w@.as_path) + seq![10u8];
    let ghost newline = seq![10u8];
    let ghost nothing = Seq::<u8>::empty();
    proof {
        if expected {
            assert(timestamp_text(w@.timestamp) + after_timestamp(w@) + seq![] =~= timestamp_text(
                w@.timestamp,
            ) + after_timestamp(w@));
            assert(after_timestamp(w@) =~= seq![44u8] + r4);
            assert(after_prefix(w@) =~= seq![44u8] + r5);
            assert(after_prefix(w@)[0] == 44u8);
            assert(newline =~= newline + nothing);
        }
    }
    let (timestamp, e) = match read_timestamp(s, pos, Ghost(w@.timestamp), Ghost(after_timestamp(w@))) {
        Some(x) => x,
        None => {
            return None;
        },
    };
    proof {
        if expected {
            lemma_advance(s@, pos as int, timestamp_text(w@.timestamp), after_timestamp(w@));
        }
    }
    let i = match read_byte(s, e, 44, Ghost(r4)) {
        Some(x) => x,
        None => {
            return None;
        },
    };
    proof {
        if expected {
            lemma_advance(s@, e as int, seq![44u8], r4);
        }
    }
    let (prefix, e) = match read_prefix(s, i, Ghost(w@.prefix), Ghost(after_prefix(w@))) {
        Some(x) => x,
        None => {
            return None;
        },
    };
    proof {
        if expected {
            lemma_advance(s@, i as int, prefix_text(w@.prefix), after_prefix(w@));
        }
    }
    let i = match read_byte(s, e, 44, Ghost(r5)) {
        Some(x) => x,
        None => {
            return None;
        },
    };
    proof {
        if expected {
            lemma_advance(s@, e as int, seq![44u8], r5);
        }
    }
    let (as_path, e) = match read_path(s, i, Ghost(w@.as_path), Ghost(newline)) {
        Some(x) => x,
        None => {
            return None;
        },
    };
    proof {
        if expected {
            lemma_advance(s@, i as int, path_text(w@.as_path), newline);
        }
    }
    let end = match read_byte(s, e, 10, Ghost(nothing)) {
        Some(x) => x,
        None => {
            return None;
        },
    };
    if end != s.len() {
        return None;
    }
    Some((timestamp, prefix, as_path))
}

/// Reads the fields of a record line.
fn parse_fields(s: &[u8], v: Ghost<AnnouncementView>) -> (r: Option<Announcement>)
    ensures
        v@.wf() && record_text(v@) == s@ ==> (r matches Some(a) && a@ == v@),
{
    let _n = s.len();
    let ghost w = v@;
    let ghost expected = w.wf() && record_text(w) == s@;
    let ghost nothing = Seq::<u8>::empty();
    proof {
        if expected {
            assert(s@.subrange(0, s@.len() as int) =~= s@);
        }
    }
    let (id, i) = match read_id(s, 0, Ghost(w.id), Ghost(after_id(w))) {
        Some(x) => x,
        None => {
            return None;
        },
    };
    proof {
        if expected {
            lemma_advance(s@, 0, id_text(w.id), after_id(w));
            assert(after_id(w) + nothing =~= after_id(w));
        }
    }
    let (origin, withdrawal, i) = match read_origin_direction(s, i, Ghost(w)) {
        Some(x) => x,
        None => {
            return None;
        },
    };
    let (timestamp, prefix, as_path) = match read_tail_fields(s, i, Ghost(w)) {
        Some(x) => x,
        None => {
            return None;
        },
    };
    let a = Announcement { id, origin, withdrawal, timestamp, prefix, as_path };
    proof {
        if expected {
            assert(a@ == w);
        }
    }
    Some(a)
}

/// Whether the bytes of `a` are those of `b`.
fn same_bytes(a: &Vec<u8>, b: &[u8]) -> (r: bool)
    ensures
        r == (a@ == b@),
{
    if a.len() != b.len() {
        return false;
    }
    let mut k: usize = 0;
    while k < a.len()
        invariant
            a@.len() == b@.len(),
            k <= a@.len(),
            forall|j: int| 0 <= j < k ==> a@[j] == b@[j],
        decreases a@.len() - k,
    {
        if a[k] != b[k] {
            return false;
        }
        k = k + 1;
    }
    assert(a@ =~= b@);
    true
}

/// Reads one record line, newline included. The line is accepted exactly
/// when it is the text of a record with a 16-byte identifier and a prefix
/// that fits its family, and then that record is the result.
pub fn parse_record(line: &[u8]) -> (r: Option<Announcement>)
    ensures
        r matches Some(a) ==> a@.wf() && record_text(a@) == line@,
        forall|v: AnnouncementView| #[trigger]
            record_text(v) == line@ && v.wf() ==> (r matches Some(a) && a@ == v),
{
    let ghost v = choose|v: AnnouncementView| v.wf() && record_text(v) == line@;
    let a = match parse_fields(line, Ghost(v)) {
        Some(a) => a,
        None => {
            return None;
        },
    };
    if a.prefix.len > a.prefix.addr.bit_width() {
        return None;
    }
    let text = encode_record(&a);
    if !same_bytes(&text, line) {
        return None;
    }
    proof {
        assert forall|u: AnnouncementView| #[trigger]
            record_text(u) == line@ && u.wf() implies a@ == u by {
            lemma_record_text_injective(a@, u);
        }
    }
    Some(a)
}

} // verus!
