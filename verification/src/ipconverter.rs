use vstd::prelude::*;
use vstd::string::StringSliceAdditionalSpecFns;

verus! {

/// Error returned for a string that is not a well-formed dotted-decimal
/// IPv4 address: wrong number of octets, a non-numeric octet, or an octet
/// outside `[0, 255]`.
#[derive(PartialEq, Eq, Debug, Clone, Copy)]
pub struct AddressFormatError;

/// The byte value of the octet separator `'.'`.
pub const DOT: u8 = 46;

/// The UTF-8 bytes of a `String`; all parsing specifications in this crate
/// are stated over these bytes.
pub open spec fn utf8_bytes(s: String) -> Seq<u8> {
    vstd::utf8::encode_utf8(s@)
}

/// Whether `b` is the code of a decimal digit.
pub open spec fn is_digit(b: u8) -> bool {
    48 <= b && b <= 57
}

/// The value of a digit byte.
pub open spec fn digit_val(b: u8) -> int {
    b as int - 48
}

pub open spec fn all_digits(s: Seq<u8>) -> bool {
    forall|i: int| 0 <= i < s.len() ==> is_digit(#[trigger] s[i])
}

/// The number denoted by a string of decimal digits, most significant first.
pub open spec fn dec_value(s: Seq<u8>) -> int
    decreases s.len(),
{
    if s.len() == 0 {
        0
    } else {
        dec_value(s.drop_last()) * 10 + digit_val(s.last())
    }
}

/// A non-empty, all-digit rendering of a number that is at most `cap`.
pub open spec fn is_dec_upto(s: Seq<u8>, cap: int) -> bool {
    s.len() > 0 && all_digits(s) && dec_value(s) <= cap
}

/// What a decimal field denotes: a `u32` value, or nothing when the field
/// is empty, holds a non-digit, or exceeds `u32::MAX`.
pub open spec fn dec_u32_of(s: Seq<u8>) -> Option<u32> {
    if is_dec_upto(s, u32::MAX as int) {
        Some(dec_value(s) as u32)
    } else {
        None
    }
}

pub proof fn lemma_dec_value_nonneg(s: Seq<u8>)
    requires
        all_digits(s),
    ensures
        dec_value(s) >= 0,
    decreases s.len(),
{
    if s.len() > 0 {
        assert(all_digits(s.drop_last()));
        lemma_dec_value_nonneg(s.drop_last());
    }
}

/// Appending digits can only grow the denoted number.
pub proof fn lemma_dec_value_prefix(s: Seq<u8>, m: int)
    requires
        all_digits(s),
        0 <= m <= s.len(),
    ensures
        dec_value(s.take(m)) <= dec_value(s),
    decreases s.len() - m,
{
    assert(all_digits(s.take(m)));
    if m < s.len() {
        lemma_dec_value_prefix(s, m + 1);
        assert(s.take(m + 1).drop_last() =~= s.take(m));
        assert(s.take(m + 1).last() == s[m]);
        lemma_dec_value_nonneg(s.take(m));
    } else {
        assert(s.take(m) =~= s);
    }
}

/// Parses the whole of `s` as a decimal number of value at most `cap`.
pub(crate) fn parse_dec(s: &[u8], cap: u32) -> (r: Option<u32>)
    ensures
        match r {
            Some(v) => is_dec_upto(s@, cap as int) && v as int == dec_value(s@) && v <= cap,
            None => !is_dec_upto(s@, cap as int),
        },
{
    if s.len() == 0 {
        return None;
    }
    let mut acc: u64 = 0;
    let mut i: usize = 0;
    while i < s.len()
        invariant
            0 < s@.len(),
            i <= s@.len(),
            all_digits(s@.take(i as int)),
            acc == dec_value(s@.take(i as int)),
            acc <= cap,
        decreases s@.len() - i,
    {
        let b = s[i];
        if b < 48 || b > 57 {
            assert(!all_digits(s@));
            return None;
        }
        acc = acc * 10 + (b - 48) as u64;
        i = i + 1;
        proof {
            assert(s@.take(i as int).drop_last() =~= s@.take(i as int - 1));
            assert(s@.take(i as int).last() == s@[i as int - 1]);
        }
        if acc > cap as u64 {
            proof {
                if all_digits(s@) {
                    lemma_dec_value_prefix(s@, i as int);
                }
            }
            return None;
        }
    }
    proof {
        assert(s@.take(s@.len() as int) =~= s@);
    }
    Some(acc as u32)
}

/// The fields of `s` split on `'.'`: always one more field than separators,
/// so an empty input has one empty field.
pub open spec fn split_dots(s: Seq<u8>) -> Seq<Seq<u8>>
    decreases s.len(),
{
    if s.len() == 0 {
        seq![Seq::<u8>::empty()]
    } else if s[0] == DOT {
        seq![Seq::<u8>::empty()].add(split_dots(s.skip(1)))
    } else {
        let rest = split_dots(s.skip(1));
        seq![seq![s[0]].add(rest[0])].add(rest.skip(1))
    }
}

pub open spec fn count_dots(s: Seq<u8>) -> int
    decreases s.len(),
{
    if s.len() == 0 {
        0
    } else {
        count_dots(s.skip(1)) + if s[0] == DOT {
            1int
        } else {
            0int
        }
    }
}

pub proof fn lemma_split_dots_len(s: Seq<u8>)
    ensures
        split_dots(s).len() == count_dots(s) + 1,
    decreases s.len(),
{
    if s.len() > 0 {
        lemma_split_dots_len(s.skip(1));
    }
}

pub proof fn lemma_count_dots_push(s: Seq<u8>, b: u8)
    ensures
        count_dots(s.push(b)) == count_dots(s) + if b == DOT {
            1int
        } else {
            0int
        },
    decreases s.len(),
{
    let t = s.push(b);
    assert(t.len() == s.len() + 1);
    assert(count_dots(t) == count_dots(t.skip(1)) + if t[0] == DOT {
        1int
    } else {
        0int
    });
    if s.len() == 0 {
        assert(t[0] == b);
        assert(t.skip(1) =~= Seq::<u8>::empty());
        assert(count_dots(t.skip(1)) == 0);
    } else {
        assert(t[0] == s[0]);
        assert(t.skip(1) =~= s.skip(1).push(b));
        lemma_count_dots_push(s.skip(1), b);
    }
}

pub proof fn lemma_count_dots_prefix(s: Seq<u8>, m: int)
    requires
        0 <= m <= s.len(),
    ensures
        count_dots(s.take(m)) <= count_dots(s),
    decreases s.len() - m,
{
    if m < s.len() {
        lemma_count_dots_prefix(s, m + 1);
        assert(s.take(m + 1) =~= s.take(m).push(s[m]));
        lemma_count_dots_push(s.take(m), s[m]);
    } else {
        assert(s.take(m) =~= s);
    }
}

/// A separator-free string is a single field.
pub proof fn lemma_split_dots_nodot(s: Seq<u8>)
    requires
        forall|j: int| 0 <= j < s.len() ==> s[j] != DOT,
    ensures
        split_dots(s) == seq![s],
    decreases s.len(),
{
    if s.len() == 0 {
        assert(split_dots(s) =~~= seq![s]);
    } else {
        lemma_split_dots_nodot(s.skip(1));
        assert(seq![s[0]].add(s.skip(1)) =~= s);
        assert(split_dots(s) =~~= seq![s]);
    }
}

/// Splitting at the first separator: the part before it, then the split of
/// the part after it.
pub proof fn lemma_split_dots_first(s: Seq<u8>, i: int)
    requires
        0 <= i < s.len(),
        s[i] == DOT,
        forall|j: int| 0 <= j < i ==> s[j] != DOT,
    ensures
        split_dots(s) == seq![s.take(i)].add(split_dots(s.skip(i + 1))),
    decreases i,
{
    if i == 0 {
        assert(s.take(0) =~= Seq::<u8>::empty());
        assert(s.skip(1) =~= s.skip(i + 1));
        assert(split_dots(s) =~~= seq![s.take(i)].add(split_dots(s.skip(i + 1))));
    } else {
        let t = s.skip(1);
        assert(t[i - 1] == DOT);
        assert(forall|j: int| 0 <= j < i - 1 ==> t[j] != DOT);
        lemma_split_dots_first(t, i - 1);
        let rest = split_dots(t);
        assert(rest[0] == t.take(i - 1));
        assert(rest.skip(1) =~~= split_dots(t.skip(i)));
        assert(seq![s[0]].add(t.take(i - 1)) =~= s.take(i));
        assert(t.skip(i) =~= s.skip(i + 1));
        assert(split_dots(s) =~~= seq![s.take(i)].add(split_dots(s.skip(i + 1))));
    }
}

/// A non-empty, all-digit field of value at most 255.
pub open spec fn is_octet(s: Seq<u8>) -> bool {
    is_dec_upto(s, 255)
}

/// What a dotted-decimal IPv4 string denotes: the big-endian combination of
/// its four octets, or nothing when it does not consist of exactly four
/// valid octets separated by `'.'`.
pub open spec fn ipv4_of(s: Seq<u8>) -> Option<u32> {
    let parts = split_dots(s);
    if parts.len() == 4 && is_octet(parts[0]) && is_octet(parts[1]) && is_octet(parts[2])
        && is_octet(parts[3]) {
        Some(
            (dec_value(parts[0]) * 0x1000000 + dec_value(parts[1]) * 0x10000 + dec_value(parts[2])
                * 0x100 + dec_value(parts[3])) as u32,
        )
    } else {
        None
    }
}

/// Converts a dotted-decimal IPv4 string to its 32-bit value, network byte
/// order. Exactly the strings whose UTF-8 bytes form four `'.'`-separated
/// decimal octets in `[0, 255]` are accepted.
#[verifier::rlimit(60)]
pub fn ipv4_to_u32(ip: &str) -> (res: Result<u32, AddressFormatError>)
    ensures
        match res {
            Ok(v) => ipv4_of(ip.spec_bytes()) == Some(v),
            Err(_) => ipv4_of(ip.spec_bytes()) is None,
        },
{
    let bytes = ip.as_bytes();
    let ghost s = bytes@;
    let n = bytes.len();
    let mut ndots: usize = 0;
    let mut d0: usize = 0;
    let mut d1: usize = 0;
    let mut d2: usize = 0;
    let mut i: usize = 0;
    while i < n
        invariant
            n == s.len(),
            i <= n,
            bytes@ == s,
            ip.spec_bytes() == s,
            ndots <= 3,
            ndots == count_dots(s.take(i as int)),
            ndots >= 1 ==> d0 < i && s[d0 as int] == DOT && forall|j: int|
                0 <= j < d0 ==> s[j] != DOT,
            ndots >= 2 ==> d0 < d1 < i && s[d1 as int] == DOT && forall|j: int|
                d0 < j < d1 ==> s[j] != DOT,
            ndots >= 3 ==> d1 < d2 < i && s[d2 as int] == DOT && forall|j: int|
                d1 < j < d2 ==> s[j] != DOT,
            ndots == 0 ==> forall|j: int| 0 <= j < i ==> s[j] != DOT,
            ndots == 1 ==> forall|j: int| d0 < j < i ==> s[j] != DOT,
            ndots == 2 ==> forall|j: int| d1 < j < i ==> s[j] != DOT,
            ndots == 3 ==> forall|j: int| d2 < j < i ==> s[j] != DOT,
        decreases n - i,
    {
        let b = bytes[i];
        proof {
            assert(s.take(i as int + 1) =~= s.take(i as int).push(s[i as int]));
            lemma_count_dots_push(s.take(i as int), s[i as int]);
        }
        if b == DOT {
            if ndots == 3 {
                proof {
                    lemma_count_dots_prefix(s, i as int + 1);
                    lemma_split_dots_len(s);
                }
                return Err(AddressFormatError);
            }
            if ndots == 0 {
                d0 = i;
            } else if ndots == 1 {
                d1 = i;
            } else {
                d2 = i;
            }
            ndots = ndots + 1;
        }
        i = i + 1;
    }
    proof {
        assert(s.take(n as int) =~= s);
    }
    if ndots != 3 {
        proof {
            lemma_split_dots_len(s);
        }
        return Err(AddressFormatError);
    }
    proof {
        lemma_split_dots_first(s, d0 as int);
        let s1 = s.skip(d0 as int + 1);
        assert(s1[d1 - d0 - 1] == DOT);
        assert(forall|j: int| 0 <= j < d1 - d0 - 1 ==> s1[j] != DOT);
        lemma_split_dots_first(s1, d1 - d0 - 1);
        let s2 = s.skip(d1 as int + 1);
        assert(s1.skip(d1 - d0) =~= s2);
        assert(s1.take(d1 - d0 - 1) =~= s.subrange(d0 as int + 1, d1 as int));
        assert(s2[d2 - d1 - 1] == DOT);
        assert(forall|j: int| 0 <= j < d2 - d1 - 1 ==> s2[j] != DOT);
        lemma_split_dots_first(s2, d2 - d1 - 1);
        let s3 = s.skip(d2 as int + 1);
        assert(s2.skip(d2 - d1) =~= s3);
        assert(s2.take(d2 - d1 - 1) =~= s.subrange(d1 as int + 1, d2 as int));
        assert(forall|j: int| 0 <= j < s3.len() ==> s3[j] != DOT);
        lemma_split_dots_nodot(s3);
        assert(split_dots(s) =~~= seq![
            s.subrange(0, d0 as int),
            s.subrange(d0 as int + 1, d1 as int),
            s.subrange(d1 as int + 1, d2 as int),
            s.subrange(d2 as int + 1, n as int),
        ]);
        assert(s.take(d0 as int) == s.subrange(0, d0 as int));
        assert(s3 == s.subrange(d2 as int + 1, n as int));
    }
    let o0 = parse_dec(&bytes[0..d0], 255);
    let o1 = parse_dec(&bytes[d0 + 1..d1], 255);
    let o2 = parse_dec(&bytes[d1 + 1..d2], 255);
    let o3 = parse_dec(&bytes[d2 + 1..n], 255);
    match (o0, o1, o2, o3) {
        (Some(v0), Some(v1), Some(v2), Some(v3)) => {
            let v = v0 * 0x1000000 + v1 * 0x10000 + v2 * 0x100 + v3;
            Ok(v)
        },
        _ => Err(AddressFormatError),
    }
}

} // verus!
