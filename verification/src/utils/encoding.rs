use vstd::prelude::*;

verus! {

/// The character of a digit `d < 16`: `0`-`9`, then lower-case `a`-`f`.
pub open spec fn digit_char(d: int) -> char {
    if d < 10 {
        (48 + d) as char
    } else {
        (87 + d) as char
    }
}

/// The decimal writing of `n`, without leading zeros (`0` is written `"0"`).
pub open spec fn decimal(n: nat) -> Seq<char>
    decreases n,
{
    if n < 10 {
        seq![digit_char(n as int)]
    } else {
        decimal(n / 10).push(digit_char((n % 10) as int))
    }
}

/// The lower-case hexadecimal writing of a byte string, two digits per byte,
/// the high half of each byte first.
pub open spec fn hex_lower(bytes: Seq<u8>) -> Seq<char>
    decreases bytes.len(),
{
    if bytes.len() == 0 {
        Seq::empty()
    } else {
        hex_lower(bytes.drop_last()) + seq![
            digit_char(bytes.last() as int / 16),
            digit_char(bytes.last() as int % 16),
        ]
    }
}

/// A one-character string holding the digit `d`.
fn digit_str(d: u8) -> (s: &'static str)
    requires
        d < 16,
    ensures
        s@ == seq![digit_char(d as int)],
{
    match d {
        0 => { proof { reveal_strlit("0"); } "0" },
        1 => { proof { reveal_strlit("1"); } "1" },
        2 => { proof { reveal_strlit("2"); } "2" },
        3 => { proof { reveal_strlit("3"); } "3" },
        4 => { proof { reveal_strlit("4"); } "4" },
        5 => { proof { reveal_strlit("5"); } "5" },
        6 => { proof { reveal_strlit("6"); } "6" },
        7 => { proof { reveal_strlit("7"); } "7" },
        8 => { proof { reveal_strlit("8"); } "8" },
        9 => { proof { reveal_strlit("9"); } "9" },
        10 => { proof { reveal_strlit("a"); } "a" },
        11 => { proof { reveal_strlit("b"); } "b" },
        12 => { proof { reveal_strlit("c"); } "c" },
        13 => { proof { reveal_strlit("d"); } "d" },
        14 => { proof { reveal_strlit("e"); } "e" },
        _ => { proof { reveal_strlit("f"); } "f" },
    }
}

/// Appends the decimal writing of `n` to `s`.
pub fn push_decimal(s: &mut String, n: u64)
    ensures
        final(s)@ == old(s)@ + decimal(n as nat),
    decreases n,
{
    if n >= 10 {
        push_decimal(s, n / 10);
    }
    let d: u8 = (n % 10) as u8;
    s.append(digit_str(d));
}

/// Appends the lower-case hexadecimal writing of `bytes` to `s`.
pub fn push_hex_lower(s: &mut String, bytes: &[u8])
    ensures
        final(s)@ == old(s)@ + hex_lower(bytes@),
{
    let ghost start = s@;
    let n = bytes.len();
    let mut i: usize = 0;
    while i < n
        invariant
            n == bytes@.len(),
            i <= n,
            s@ == start + hex_lower(bytes@.take(i as int)),
        decreases n - i,
    {
        let b: u8 = bytes[i];
        s.append(digit_str(b / 16));
        s.append(digit_str(b % 16));
        assert(bytes@.take(i + 1).drop_last() =~= bytes@.take(i as int));
        i = i + 1;
    }
    assert(bytes@.take(n as int) =~= bytes@);
}

} // verus!

verus! {

/// The ASCII bytes of the decimal writing of `n`.
pub open spec fn decimal_bytes(n: nat) -> Seq<u8>
    decreases n,
{
    if n < 10 {
        seq![(48 + n) as u8]
    } else {
        decimal_bytes(n / 10).push((48 + n % 10) as u8)
    }
}

/// The byte that ends a number field: `:`.
pub open spec fn field_end() -> Seq<u8> {
    seq![58u8]
}

/// A number as a field: its decimal digits, then `:`.
pub open spec fn num_field(n: nat) -> Seq<u8> {
    decimal_bytes(n) + field_end()
}

/// A byte string as a field: its length as a number field, then the bytes themselves.
pub open spec fn bytes_field(b: Seq<u8>) -> Seq<u8> {
    num_field(b.len()) + b
}

/// Every byte of a decimal writing is a digit, and there is at least one.
pub proof fn lemma_decimal_bytes_digits(n: nat)
    ensures
        decimal_bytes(n).len() >= 1,
        n >= 10 ==> decimal_bytes(n).len() >= 2,
        forall|i: int| 0 <= i < decimal_bytes(n).len() ==> 48 <= #[trigger] decimal_bytes(n)[i] <= 57,
    decreases n,
{
    if n >= 10 {
        lemma_decimal_bytes_digits(n / 10);
        let d = decimal_bytes(n / 10);
        assert forall|i: int| 0 <= i < decimal_bytes(n).len() implies 48 <= #[trigger] decimal_bytes(n)[i] <= 57 by {
            if i < d.len() {
                assert(decimal_bytes(n)[i] == d[i]);
            }
        }
    }
}

/// Different numbers have different decimal writings.
pub proof fn lemma_decimal_bytes_injective(a: nat, b: nat)
    requires
        decimal_bytes(a) == decimal_bytes(b),
    ensures
        a == b,
    decreases a,
{
    lemma_decimal_bytes_digits(a);
    lemma_decimal_bytes_digits(b);
    if a >= 10 && b >= 10 {
        assert(decimal_bytes(a).drop_last() == decimal_bytes(a / 10));
        assert(decimal_bytes(b).drop_last() == decimal_bytes(b / 10));
        lemma_decimal_bytes_injective(a / 10, b / 10);
        assert(decimal_bytes(a).last() == decimal_bytes(b).last());
        let ra: int = a as int % 10;
        let rb: int = b as int % 10;
        assert(decimal_bytes(a).last() == (48 + ra) as u8);
        assert(decimal_bytes(b).last() == (48 + rb) as u8);
        assert(a % 10 == b % 10);
    } else if a < 10 && b < 10 {
        let ca: u8 = (48 + a) as u8;
        let cb: u8 = (48 + b) as u8;
        assert(seq![ca][0] == ca && seq![cb][0] == cb);
    }
}

/// Two concatenations whose first parts have the same length agree part by part.
pub proof fn lemma_split_equal<T>(p1: Seq<T>, r1: Seq<T>, p2: Seq<T>, r2: Seq<T>)
    requires
        p1 + r1 == p2 + r2,
        p1.len() == p2.len(),
    ensures
        p1 == p2,
        r1 == r2,
{
    assert(p1 =~= (p1 + r1).subrange(0, p1.len() as int));
    assert(p2 =~= (p2 + r2).subrange(0, p2.len() as int));
    assert(r1 =~= (p1 + r1).subrange(p1.len() as int, (p1 + r1).len() as int));
    assert(r2 =~= (p2 + r2).subrange(p2.len() as int, (p2 + r2).len() as int));
}

/// A number field is read back unambiguously from the front of a byte string.
pub proof fn lemma_num_field_parse(a: nat, r1: Seq<u8>, b: nat, r2: Seq<u8>)
    requires
        num_field(a) + r1 == num_field(b) + r2,
    ensures
        a == b,
        r1 == r2,
{
    lemma_decimal_bytes_digits(a);
    lemma_decimal_bytes_digits(b);
    let da = decimal_bytes(a);
    let db = decimal_bytes(b);
    let s = num_field(a) + r1;
    assert(s == num_field(b) + r2);
    if da.len() < db.len() {
        assert(s[da.len() as int] == 58u8);
        assert((num_field(b) + r2)[da.len() as int] == db[da.len() as int]);
    } else if db.len() < da.len() {
        assert((num_field(b) + r2)[db.len() as int] == 58u8);
        assert(s[db.len() as int] == da[db.len() as int]);
    }
    assert(da.len() == db.len());
    assert(s =~= da + (field_end() + r1));
    assert(num_field(b) + r2 =~= db + (field_end() + r2));
    lemma_split_equal(da, field_end() + r1, db, field_end() + r2);
    lemma_decimal_bytes_injective(a, b);
    lemma_split_equal(field_end(), r1, field_end(), r2);
}

/// A byte-string field is read back unambiguously from the front of a byte string.
pub proof fn lemma_bytes_field_parse(x: Seq<u8>, r1: Seq<u8>, y: Seq<u8>, r2: Seq<u8>)
    requires
        bytes_field(x) + r1 == bytes_field(y) + r2,
    ensures
        x == y,
        r1 == r2,
{
    assert(bytes_field(x) + r1 =~= num_field(x.len()) + (x + r1));
    assert(bytes_field(y) + r2 =~= num_field(y.len()) + (y + r2));
    lemma_num_field_parse(x.len(), x + r1, y.len(), y + r2);
    lemma_split_equal(x, r1, y, r2);
}

/// Different byte strings have different hexadecimal writings.
pub proof fn lemma_hex_lower_injective(a: Seq<u8>, b: Seq<u8>)
    requires
        hex_lower(a) == hex_lower(b),
    ensures
        a == b,
    decreases a.len(),
{
    lemma_hex_lower_len(a);
    lemma_hex_lower_len(b);
    if a.len() > 0 {
        let ha = hex_lower(a.drop_last());
        let hb = hex_lower(b.drop_last());
        lemma_hex_lower_len(a.drop_last());
        lemma_hex_lower_len(b.drop_last());
        let ta = seq![digit_char(a.last() as int / 16), digit_char(a.last() as int % 16)];
        let tb = seq![digit_char(b.last() as int / 16), digit_char(b.last() as int % 16)];
        lemma_split_equal(ha, ta, hb, tb);
        lemma_hex_lower_injective(a.drop_last(), b.drop_last());
        assert(ta[0] == tb[0] && ta[1] == tb[1]);
        assert(a.last() == b.last());
        assert(a =~= a.drop_last().push(a.last()));
        assert(b =~= b.drop_last().push(b.last()));
    }
}

/// The hexadecimal writing has two characters per byte.
pub proof fn lemma_hex_lower_len(bytes: Seq<u8>)
    ensures
        hex_lower(bytes).len() == 2 * bytes.len(),
    decreases bytes.len(),
{
    if bytes.len() > 0 {
        lemma_hex_lower_len(bytes.drop_last());
    }
}

/// Appends the ASCII decimal writing of `n` to `v`.
pub fn push_decimal_bytes(v: &mut Vec<u8>, n: u64)
    ensures
        final(v)@ == old(v)@ + decimal_bytes(n as nat),
    decreases n,
{
    if n >= 10 {
        push_decimal_bytes(v, n / 10);
    }
    let d: u8 = (n % 10) as u8;
    v.push(48 + d);
}

/// Appends `n` as a number field to `v`.
pub fn push_num_field(v: &mut Vec<u8>, n: u64)
    ensures
        final(v)@ == old(v)@ + num_field(n as nat),
{
    push_decimal_bytes(v, n);
    v.push(58);
    assert(v@ =~= old(v)@ + num_field(n as nat));
}

/// Appends `bytes` as a byte-string field to `v`.
pub fn push_bytes_field(v: &mut Vec<u8>, bytes: &[u8])
    ensures
        final(v)@ == old(v)@ + bytes_field(bytes@),
{
    push_num_field(v, bytes.len() as u64);
    let ghost mid = v@;
    let n = bytes.len();
    let mut i: usize = 0;
    while i < n
        invariant
            n == bytes@.len(),
            i <= n,
            v@ == mid + bytes@.take(i as int),
        decreases n - i,
    {
        v.push(bytes[i]);
        assert(bytes@.take(i + 1) =~= bytes@.take(i as int).push(bytes@[i as int]));
        i = i + 1;
    }
    assert(bytes@.take(n as int) =~= bytes@);
    assert(v@ =~= old(v)@ + bytes_field(bytes@));
}

} // verus!
