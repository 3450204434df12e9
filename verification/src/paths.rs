use vstd::prelude::*;
use vstd::arithmetic::div_mod::{lemma_div_denominator, lemma_fundamental_div_mod,
    lemma_fundamental_div_mod_converse};

verus! {

pub open spec fn pow10(c: int) -> int
    decreases c,
{
    if c <= 0 {
        1
    } else {
        10 * pow10(c - 1)
    }
}

/// Decimal digits of `n` zero-padded to width `c`, most significant first:
/// the numeric field of every file name, at width 20.
pub open spec fn pad_digits(n: int, c: int) -> Seq<u8>
    decreases c,
{
    if c <= 0 {
        Seq::empty()
    } else {
        pad_digits(n / 10, c - 1) + seq![(n % 10 + 48) as u8]
    }
}

pub open spec fn is_digits(s: Seq<u8>) -> bool {
    forall|p: int| 0 <= p < s.len() ==> 48 <= #[trigger] s[p] <= 57
}

/// The number a run of decimal digits denotes.
pub open spec fn num_of(s: Seq<u8>) -> int
    decreases s.len(),
{
    if s.len() == 0 {
        0
    } else {
        num_of(s.drop_last()) * 10 + (s.last() - 48)
    }
}

pub proof fn lemma_pow10_pos(c: int)
    ensures
        pow10(c) >= 1,
    decreases c,
{
    if c > 0 {
        lemma_pow10_pos(c - 1);
    }
}

pub proof fn lemma_pow10_20()
    ensures
        pow10(20) > u64::MAX,
{
    reveal_with_fuel(pow10, 21);
}

pub proof fn lemma_pad_digits_wf(n: int, c: int)
    requires
        n >= 0,
        c >= 0,
    ensures
        pad_digits(n, c).len() == c,
        is_digits(pad_digits(n, c)),
    decreases c,
{
    if c > 0 {
        lemma_pad_digits_wf(n / 10, c - 1);
        let s = pad_digits(n, c);
        assert forall|p: int| 0 <= p < s.len() implies 48 <= #[trigger] s[p] <= 57 by {
            if p < c - 1 {
                assert(s[p] == pad_digits(n / 10, c - 1)[p]);
            }
        }
    }
}

/// Reading the padded digits back yields the number.
pub proof fn lemma_num_of_pad(n: int, c: int)
    requires
        0 <= n < pow10(c),
    ensures
        num_of(pad_digits(n, c)) == n,
    decreases c,
{
    if c <= 0 {
        assert(pad_digits(n, c) =~= Seq::<u8>::empty());
    } else {
        lemma_fundamental_div_mod(n, 10);
        assert(n / 10 < pow10(c - 1));
        lemma_num_of_pad(n / 10, c - 1);
        let s = pad_digits(n, c);
        assert(s.drop_last() =~= pad_digits(n / 10, c - 1));
        assert(s.last() == (n % 10 + 48) as u8);
    }
}

pub proof fn lemma_num_of_nonneg(s: Seq<u8>)
    requires
        is_digits(s),
    ensures
        num_of(s) >= 0,
    decreases s.len(),
{
    if s.len() > 0 {
        assert(is_digits(s.drop_last()));
        lemma_num_of_nonneg(s.drop_last());
    }
}

/// Digits are recovered from their number: parsing inverts formatting.
pub proof fn lemma_pad_of_num(s: Seq<u8>)
    requires
        is_digits(s),
    ensures
        0 <= num_of(s) < pow10(s.len() as int),
        pad_digits(num_of(s), s.len() as int) == s,
    decreases s.len(),
{
    if s.len() == 0 {
        assert(pad_digits(0, 0) =~= s);
    } else {
        assert(is_digits(s.drop_last()));
        lemma_pad_of_num(s.drop_last());
        let m = num_of(s.drop_last());
        let d = s.last() - 48;
        let n = num_of(s);
        assert(n == m * 10 + d);
        lemma_fundamental_div_mod_converse(n, 10, m, d);
        assert(n < pow10(s.len() as int)) by {
            assert(m <= pow10(s.len() - 1) - 1);
            assert(m * 10 <= (pow10(s.len() - 1) - 1) * 10) by (nonlinear_arith)
                requires
                    m <= pow10(s.len() - 1) - 1,
            ;
        }
        assert(pad_digits(n, s.len() as int) =~= s) by {
            assert(pad_digits(n, s.len() as int).drop_last() =~= pad_digits(m, s.len() - 1));
            assert(pad_digits(m, s.len() - 1) == s.drop_last());
        }
    }
}

/// A digit run is at least any of its prefixes.
pub proof fn lemma_num_of_prefix(s: Seq<u8>, t: int)
    requires
        is_digits(s),
        0 <= t <= s.len(),
    ensures
        num_of(s.take(t)) <= num_of(s),
    decreases s.len() - t,
{
    if t == s.len() {
        assert(s.take(t) =~= s);
    }
    if t < s.len() {
        lemma_num_of_prefix(s, t + 1);
        assert(s.take(t + 1).drop_last() =~= s.take(t));
        assert(is_digits(s.take(t)));
        lemma_num_of_nonneg(s.take(t));
        assert(num_of(s.take(t + 1)) == num_of(s.take(t)) * 10 + (s[t] - 48));
    }
}

/// Render `{i:020}` followed by the extension, e.g. the bytes of
/// `00000000000000000007.data`.
pub fn format_name(i: u64, ext: &[u8]) -> (r: Vec<u8>)
    ensures
        r@ == pad_digits(i as int, 20) + ext@,
{
    let mut buf: Vec<u8> = Vec::new();
    let mut n: u64 = i;
    let mut k: usize = 0;
    proof {
        lemma_pow10_pos(0);
        assert(buf@.reverse() =~= Seq::<u8>::empty());
        assert(pad_digits(i as int, 20) =~= pad_digits(i as int, 20) + buf@.reverse());
    }
    while k < 20
        invariant
            0 <= k <= 20,
            buf@.len() == k,
            n as int == i as int / pow10(k as int),
            pad_digits(i as int, 20) == pad_digits(n as int, 20 - k) + buf@.reverse(),
        decreases 20 - k,
    {
        let ghost old_buf = buf@;
        let ghost old_n = n as int;
        let d: u8 = (n % 10) as u8 + 48;
        buf.push(d);
        n = n / 10;
        proof {
            lemma_pow10_pos(k as int);
            lemma_div_denominator(i as int, pow10(k as int), 10);
            assert(n as int == i as int / pow10(k + 1));
            assert(buf@.reverse() =~= seq![d] + old_buf.reverse());
            assert(pad_digits(old_n, 20 - k) =~= pad_digits(n as int, 20 - k - 1) + seq![d]);
            assert(pad_digits(n as int, 20 - k - 1) + buf@.reverse() =~= (pad_digits(
                n as int,
                20 - k - 1,
            ) + seq![d]) + old_buf.reverse());
        }
        k = k + 1;
    }
    proof {
        assert(pad_digits(n as int, 0) =~= Seq::<u8>::empty());
        assert(pad_digits(i as int, 20) =~= buf@.reverse());
    }
    let mut out: Vec<u8> = Vec::new();
    let mut p: usize = 0;
    while p < 20
        invariant
            buf@.len() == 20,
            0 <= p <= 20,
            out@.len() == p,
            pad_digits(i as int, 20) == buf@.reverse(),
            forall|t: int| 0 <= t < p ==> out@[t] == buf@[19 - t],
        decreases 20 - p,
    {
        out.push(buf[19 - p]);
        p = p + 1;
    }
    out.extend_from_slice(ext);
    proof {
        assert(out@ =~= pad_digits(i as int, 20) + ext@);
    }
    out
}

/// Recognize `{i:020}` followed by exactly the extension; anything else,
/// including a numeric field that does not fit `u64`, is not such a name.
pub fn parse_name(name: &[u8], ext: &[u8]) -> (r: Option<u64>)
    ensures
        match r {
            Some(i) => name@ == pad_digits(i as int, 20) + ext@,
            None => forall|i: u64| name@ != pad_digits(i as int, 20) + ext@,
        },
{
    proof {
        lemma_pow10_20();
    }
    if name.len() < 20 || name.len() - 20 != ext.len() {
        proof {
            assert forall|i: u64| name@ != pad_digits(i as int, 20) + ext@ by {
                lemma_pad_digits_wf(i as int, 20);
            }
        }
        return None;
    }
    let mut p: usize = 0;
    while p < 20
        invariant
            0 <= p <= 20,
            name@.len() == 20 + ext@.len(),
            forall|t: int| 0 <= t < p ==> 48 <= #[trigger] name@[t] <= 57,
        decreases 20 - p,
    {
        let c = name[p];
        if c < 48 || c > 57 {
            proof {
                assert forall|i: u64| name@ != pad_digits(i as int, 20) + ext@ by {
                    lemma_pad_digits_wf(i as int, 20);
                    let full = pad_digits(i as int, 20) + ext@;
                    assert(full[p as int] == pad_digits(i as int, 20)[p as int]);
                }
            }
            return None;
        }
        p = p + 1;
    }
    let mut q: usize = 0;
    while q < ext.len()
        invariant
            0 <= q <= ext@.len(),
            name@.len() == 20 + ext@.len(),
            name@.len() <= usize::MAX,
            forall|t: int| 0 <= t < q ==> name@[20 + t] == ext@[t],
        decreases ext@.len() - q,
    {
        if name[20 + q] != ext[q] {
            proof {
                assert forall|i: u64| name@ != pad_digits(i as int, 20) + ext@ by {
                    lemma_pad_digits_wf(i as int, 20);
                    let full = pad_digits(i as int, 20) + ext@;
                    assert(full[20 + q as int] == ext@[q as int]);
                }
            }
            return None;
        }
        q = q + 1;
    }
    let ghost digits = name@.take(20);
    proof {
        assert(is_digits(digits));
        assert(digits.take(0) =~= Seq::<u8>::empty());
    }
    let mut acc: u64 = 0;
    let mut t: usize = 0;
    while t < 20
        invariant
            0 <= t <= 20,
            name@.len() == 20 + ext@.len(),
            digits == name@.take(20),
            is_digits(digits),
            forall|x: int| 0 <= x < 20 ==> 48 <= #[trigger] name@[x] <= 57,
            acc as int == num_of(digits.take(t as int)),
        decreases 20 - t,
    {
        let d: u64 = (name[t] - 48) as u64;
        proof {
            assert(digits.take(t + 1).drop_last() =~= digits.take(t as int));
            assert(digits.take(t + 1).last() == name@[t as int]);
        }
        if acc > (u64::MAX - d) / 10 {
            proof {
                lemma_fundamental_div_mod((u64::MAX - d) as int, 10);
                assert(num_of(digits.take(t + 1)) > u64::MAX);
                lemma_num_of_prefix(digits, t + 1);
                assert(num_of(digits) > u64::MAX);
                assert forall|i: u64| name@ != pad_digits(i as int, 20) + ext@ by {
                    lemma_pow10_20();
                    lemma_pad_digits_wf(i as int, 20);
                    lemma_num_of_pad(i as int, 20);
                    if name@ == pad_digits(i as int, 20) + ext@ {
                        assert(digits =~= pad_digits(i as int, 20));
                    }
                }
            }
            return None;
        }
        proof {
            lemma_fundamental_div_mod((u64::MAX - d) as int, 10);
        }
        acc = acc * 10 + d;
        t = t + 1;
    }
    proof {
        assert(digits.take(20) =~= digits);
        lemma_pad_of_num(digits);
        assert(pad_digits(acc as int, 20) == digits);
        assert(name@ =~= digits + ext@);
    }
    Some(acc)
}


/// `{i:020}` followed by `ext` determines `i`.
pub proof fn lemma_name_num_inj(a: u64, b: u64, ext: Seq<u8>)
    requires
        pad_digits(a as int, 20) + ext == pad_digits(b as int, 20) + ext,
    ensures
        a == b,
{
    lemma_pow10_20();
    lemma_pad_digits_wf(a as int, 20);
    lemma_pad_digits_wf(b as int, 20);
    assert(pad_digits(a as int, 20) =~= (pad_digits(a as int, 20) + ext).take(20));
    assert(pad_digits(b as int, 20) =~= (pad_digits(b as int, 20) + ext).take(20));
    lemma_num_of_pad(a as int, 20);
    lemma_num_of_pad(b as int, 20);
}

pub open spec fn spec_ext_data() -> Seq<u8> {
    seq![46u8, 100u8, 97u8, 116u8, 97u8]
}

pub open spec fn spec_ext_index() -> Seq<u8> {
    seq![46u8, 105u8, 110u8, 100u8, 101u8, 120u8]
}

pub open spec fn spec_ext_memtable() -> Seq<u8> {
    seq![46u8, 109u8, 101u8, 109u8, 116u8, 97u8, 98u8, 108u8, 101u8]
}

pub open spec fn spec_ext_compact_action() -> Seq<u8> {
    seq![46u8, 99u8, 111u8, 109u8, 112u8, 97u8, 99u8, 116u8, 95u8, 97u8, 99u8, 116u8, 105u8,
        111u8, 110u8]
}

pub open spec fn spec_ext_compact_data() -> Seq<u8> {
    seq![46u8, 99u8, 111u8, 109u8, 112u8, 97u8, 99u8, 116u8, 95u8, 100u8, 97u8, 116u8, 97u8]
}

pub open spec fn spec_ext_compact_index() -> Seq<u8> {
    seq![46u8, 99u8, 111u8, 109u8, 112u8, 97u8, 99u8, 116u8, 95u8, 105u8, 110u8, 100u8, 101u8,
        120u8]
}

fn push_bytes(out: &mut Vec<u8>, bytes: &[u8])
    ensures
        final(out)@ == old(out)@ + bytes@,
{
    out.extend_from_slice(bytes);
    assert(out@ =~= old(out)@ + bytes@);
}

/// The `.data` extension, as bytes.
pub fn ext_data() -> (r: Vec<u8>)
    ensures
        r@ == spec_ext_data(),
{
    let mut r: Vec<u8> = Vec::new();
    push_bytes(&mut r, &[46u8, 100u8, 97u8, 116u8, 97u8]);
    proof {
        assert(r@ =~= spec_ext_data());
    }
    r
}

/// The `.index` extension, as bytes.
pub fn ext_index() -> (r: Vec<u8>)
    ensures
        r@ == spec_ext_index(),
{
    let mut r: Vec<u8> = Vec::new();
    push_bytes(&mut r, &[46u8, 105u8, 110u8, 100u8, 101u8, 120u8]);
    proof {
        assert(r@ =~= spec_ext_index());
    }
    r
}

/// The `.memtable` extension, as bytes.
pub fn ext_memtable() -> (r: Vec<u8>)
    ensures
        r@ == spec_ext_memtable(),
{
    let mut r: Vec<u8> = Vec::new();
    push_bytes(&mut r, &[46u8, 109u8, 101u8, 109u8, 116u8, 97u8, 98u8, 108u8, 101u8]);
    proof {
        assert(r@ =~= spec_ext_memtable());
    }
    r
}

/// The `.compact_action` extension, as bytes.
pub fn ext_compact_action() -> (r: Vec<u8>)
    ensures
        r@ == spec_ext_compact_action(),
{
    let mut r: Vec<u8> = Vec::new();
    push_bytes(
        &mut r,
        &[46u8, 99u8, 111u8, 109u8, 112u8, 97u8, 99u8, 116u8, 95u8, 97u8, 99u8, 116u8, 105u8,
            111u8, 110u8],
    );
    proof {
        assert(r@ =~= spec_ext_compact_action());
    }
    r
}

/// The `.compact_data` extension, as bytes.
pub fn ext_compact_data() -> (r: Vec<u8>)
    ensures
        r@ == spec_ext_compact_data(),
{
    let mut r: Vec<u8> = Vec::new();
    push_bytes(
        &mut r,
        &[46u8, 99u8, 111u8, 109u8, 112u8, 97u8, 99u8, 116u8, 95u8, 100u8, 97u8, 116u8, 97u8],
    );
    proof {
        assert(r@ =~= spec_ext_compact_data());
    }
    r
}

/// The `.compact_index` extension, as bytes.
pub fn ext_compact_index() -> (r: Vec<u8>)
    ensures
        r@ == spec_ext_compact_index(),
{
    let mut r: Vec<u8> = Vec::new();
    push_bytes(
        &mut r,
        &[46u8, 99u8, 111u8, 109u8, 112u8, 97u8, 99u8, 116u8, 95u8, 105u8, 110u8, 100u8, 101u8,
            120u8],
    );
    proof {
        assert(r@ =~= spec_ext_compact_index());
    }
    r
}

} // verus!
