//! Uniform passwords from one random number.
//!
//! The random number is written in base `|charset|`; its digits, least
//! significant first, pick the characters of the batch one after another.

use vstd::prelude::*;
use vstd::utf8::encode_utf8;
use num_bigint::BigUint;
use rand::RngCore;
use rand::rngs::OsRng;
use crate::bignum::{
    big_bits, big_div_mod_floor, big_from_bytes_le, big_from_usize, big_pow, big_sub,
    big_to_usize, big_value, bit_length, le_value, lemma_bit_length_of_power,
    lemma_power_positive, power,
};
use crate::charset::{
    compile, is_charset, is_typeable, lemma_listing_below, lemma_listing_is_charset, listing,
    listing_below, parse_charset_spec, typeable_set,
};
use crate::error::PasswordError;

verus! {

/// Digit `i` of `v` written in base `base`, least significant first.
pub open spec fn digit(v: nat, base: nat, i: nat) -> nat {
    (v / power(base, i)) % base
}

/// Password `k` of a batch of passwords of `len` characters each, read off
/// the digits of `v` in base `|charset|`.
pub open spec fn password(charset: Seq<u8>, v: nat, len: nat, k: nat) -> Seq<char> {
    Seq::new(len, |j: int| charset[digit(v, charset.len(), k * len + j as nat) as int] as char)
}

pub open spec fn all_ascii(bytes: Seq<u8>) -> bool {
    forall|i: int| 0 <= i < bytes.len() ==> bytes[i] < 128
}

/// ASCII bytes read as text: one character per byte.
pub open spec fn ascii_text(bytes: Seq<u8>) -> Seq<char> {
    Seq::new(bytes.len(), |i: int| bytes[i] as char)
}

/// Relies on `String::from_utf8`: ASCII bytes are valid UTF-8, one
/// character per byte.
#[verifier::external_body]
fn ascii_string(bytes: Vec<u8>) -> (r: Option<String>)
    ensures
        all_ascii(bytes@) ==> r is Some && r->Some_0@ == ascii_text(bytes@),
{
    String::from_utf8(bytes).ok()
}

/// Turns the random bytes `entropy`, read as a little-endian number, into
/// `num_passwords` passwords of `password_len` characters over `charset`.
pub fn passwords_from_entropy(
    charset: &Vec<u8>,
    entropy: &Vec<u8>,
    password_len: usize,
    num_passwords: usize,
) -> (r: Vec<String>)
    requires
        is_charset(charset@),
    ensures
        r@.len() == num_passwords,
        forall|k: int|
            0 <= k < num_passwords ==> #[trigger] r@[k]@ == password(
                charset@,
                le_value(entropy@),
                password_len as nat,
                k as nat,
            ),
        forall|k: int|
            0 <= k < num_passwords ==> (#[trigger] r@[k])@.len() == password_len && over_charset(
                r@[k]@,
                charset@,
            ),
{
    let ghost v = le_value(entropy@);
    let ghost b = charset@.len();
    let base = big_from_usize(charset.len());
    let mut value = big_from_bytes_le(entropy.as_slice());
    assert(power(b, 0) == 1);
    assert(b <= usize::MAX);
    assert(v / 1 == v);
    let mut passwords: Vec<String> = Vec::new();
    let mut k: usize = 0;
    while k < num_passwords
        invariant
            k <= num_passwords,
            is_charset(charset@),
            b == charset@.len(),
            b <= usize::MAX,
            big_value(base) == b,
            v == le_value(entropy@),
            big_value(value) == v / power(b, k as nat * password_len as nat),
            passwords@.len() == k,
            forall|kk: int|
                0 <= kk < k ==> #[trigger] passwords@[kk]@ == password(
                    charset@,
                    v,
                    password_len as nat,
                    kk as nat,
                ),
        decreases num_passwords - k,
    {
        let ghost first = k as nat * password_len as nat;
        let mut bytes: Vec<u8> = Vec::new();
        let mut j: usize = 0;
        while j < password_len
            invariant
                j <= password_len,
                is_charset(charset@),
                b == charset@.len(),
                b <= usize::MAX,
                big_value(base) == b,
                big_value(value) == v / power(b, first + j as nat),
                bytes@.len() == j,
                forall|jj: int|
                    0 <= jj < j ==> #[trigger] bytes@[jj] == charset@[digit(
                        v,
                        b,
                        first + jj as nat,
                    ) as int],
                forall|jj: int| 0 <= jj < j ==> #[trigger] bytes@[jj] < 128,
            decreases password_len - j,
        {
            let ghost i = first + j as nat;
            let (quo, rem) = big_div_mod_floor(&value, &base);
            proof {
                lemma_power_positive(b, i);
                vstd::arithmetic::div_mod::lemma_div_denominator(
                    v as int,
                    power(b, i) as int,
                    b as int,
                );
                assert(power(b, i + 1) == b * power(b, i));
                assert(power(b, i) * b == b * power(b, i)) by (nonlinear_arith);
            }
            value = quo;
            let idx = match big_to_usize(&rem) {
                Some(n) => n,
                None => 0,
            };
            assert(big_value(rem) < b);
            assert(idx == digit(v, b, i));
            let ch = charset[idx];
            assert(charset@.contains(ch));
            bytes.push(ch);
            j = j + 1;
        }
        let text = match ascii_string(bytes) {
            Some(s) => s,
            None => String::new(),
        };
        assert(text@ =~= password(charset@, v, password_len as nat, k as nat));
        passwords.push(text);
        assert((k + 1) as nat * password_len as nat == first + password_len as nat) by (
        nonlinear_arith)
            requires
                first == k as nat * password_len as nat,
        ;
        k = k + 1;
    }
    proof {
        assert forall|k: int| 0 <= k < num_passwords implies (#[trigger] passwords@[k])@.len()
            == password_len && over_charset(passwords@[k]@, charset@) by {
            password_over_charset(charset@, v, password_len as nat, k as nat);
        }
    }
    passwords
}

/// Distinct numbers below `base^total` have distinct first `total` digits.
/// So reading `total` digits maps the `base^total` numbers below that bound
/// one to one onto the `base^total` digit strings: a number drawn uniformly
/// from there gives every batch with the same chance.
pub proof fn digits_are_injective(v1: nat, v2: nat, base: nat, total: nat)
    requires
        base > 0,
        v1 < power(base, total),
        v2 < power(base, total),
        v1 != v2,
    ensures
        exists|i: nat| i < total && #[trigger] digit(v1, base, i) != digit(v2, base, i),
    decreases total,
{
    assert(power(base, 0) == 1);
    if total == 0 {
        assert(false);
    } else if v1 % base != v2 % base {
        assert(digit(v1, base, 0) != digit(v2, base, 0));
    } else {
        let t = (total - 1) as nat;
        let p = power(base, t);
        lemma_power_positive(base, t);
        vstd::arithmetic::div_mod::lemma_fundamental_div_mod(v1 as int, base as int);
        vstd::arithmetic::div_mod::lemma_fundamental_div_mod(v2 as int, base as int);
        assert(v1 / base != v2 / base);
        assert(v1 / base < p) by (nonlinear_arith)
            requires
                v1 < base * p,
                base > 0,
                v1 == base * (v1 / base) + v1 % base,
                v1 % base >= 0,
        ;
        assert(v2 / base < p) by (nonlinear_arith)
            requires
                v2 < base * p,
                base > 0,
                v2 == base * (v2 / base) + v2 % base,
                v2 % base >= 0,
        ;
        digits_are_injective(v1 / base, v2 / base, base, t);
        let i = choose|i: nat| i < t && #[trigger] digit(v1 / base, base, i) != digit(v2 / base, base, i);
        lemma_power_positive(base, i);
        vstd::arithmetic::div_mod::lemma_div_denominator(v1 as int, base as int, power(base, i) as int);
        vstd::arithmetic::div_mod::lemma_div_denominator(v2 as int, base as int, power(base, i) as int);
        assert(power(base, i + 1) == base * power(base, i));
        assert(digit(v1, base, i + 1) != digit(v2, base, i + 1));
    }
}

proof fn lemma_power_adds(base: nat, x: nat, y: nat)
    ensures
        power(base, x + y) == power(base, x) * power(base, y),
    decreases x,
{
    if x == 0 {
        assert(power(base, 0) == 1);
        assert(x + y == y);
    } else {
        lemma_power_adds(base, (x - 1) as nat, y);
        assert(power(base, x + y) == base * power(base, (x - 1 + y) as nat));
        let a = power(base, (x - 1) as nat);
        assert(power(base, x) == base * a);
        let c = power(base, y);
        assert(base * (a * c) == (base * a) * c) by (nonlinear_arith);
    }
}

/// The first `total` digits of a number depend only on its remainder
/// modulo `base^total`.
pub proof fn digits_depend_on_residue(v: nat, base: nat, total: nat, i: nat)
    requires
        base > 0,
        i < total,
    ensures
        digit(v, base, i) == digit(v % power(base, total), base, i),
{
    let pt = power(base, total);
    let pi = power(base, i);
    let rest = (total - i - 1) as nat;
    let pr = power(base, rest);
    lemma_power_positive(base, total);
    lemma_power_positive(base, i);
    lemma_power_positive(base, rest);
    lemma_power_adds(base, rest + 1, i);
    assert(rest + 1 + i == total);
    assert(power(base, rest + 1) == base * pr);
    let q = v / pt;
    let r = v % pt;
    vstd::arithmetic::div_mod::lemma_fundamental_div_mod(v as int, pt as int);
    let r1 = r / pi;
    let r2 = r % pi;
    vstd::arithmetic::div_mod::lemma_fundamental_div_mod(r as int, pi as int);
    assert(v == (q * base * pr + r1) * pi + r2) by (nonlinear_arith)
        requires
            v == pt * q + r,
            pt == base * pr * pi,
            r == pi * r1 + r2,
    ;
    vstd::arithmetic::div_mod::lemma_fundamental_div_mod_converse(
        v as int,
        pi as int,
        (q * base * pr + r1) as int,
        r2 as int,
    );
    let d = r1 % base;
    vstd::arithmetic::div_mod::lemma_fundamental_div_mod(r1 as int, base as int);
    assert(q * base * pr + r1 == (q * pr + r1 / base) * base + d) by (nonlinear_arith)
        requires
            r1 == base * (r1 / base) + d,
    ;
    vstd::arithmetic::div_mod::lemma_fundamental_div_mod_converse(
        (q * base * pr + r1) as int,
        base as int,
        (q * pr + r1 / base) as int,
        d as int,
    );
}

/// How many numbers below `m` leave remainder `u` modulo `p`.
pub open spec fn count_residue(m: nat, p: nat, u: nat) -> nat
    decreases m,
{
    if m == 0 {
        0
    } else {
        count_residue((m - 1) as nat, p, u) + if (m - 1) as nat % p == u {
            1nat
        } else {
            0nat
        }
    }
}

/// Below `m`, each remainder `u` modulo `p` occurs `m / p` times, or once
/// more when `u < m % p`: the remainders are as even as `m` allows.
pub proof fn residues_are_balanced(m: nat, p: nat, u: nat)
    requires
        p > 0,
        u < p,
    ensures
        count_residue(m, p, u) == m / p + if u < m % p {
            1nat
        } else {
            0nat
        },
    decreases m,
{
    if m == 0 {
        vstd::arithmetic::div_mod::lemma_fundamental_div_mod_converse(0, p as int, 0, 0);
    } else {
        let k = (m - 1) as nat;
        residues_are_balanced(k, p, u);
        let q = k / p;
        let r = k % p;
        assert(count_residue(m, p, u) == count_residue(k, p, u) + if r == u {
            1nat
        } else {
            0nat
        });
        vstd::arithmetic::div_mod::lemma_fundamental_div_mod(k as int, p as int);
        if r + 1 < p {
            vstd::arithmetic::div_mod::lemma_fundamental_div_mod_converse(
                m as int,
                p as int,
                q as int,
                (r + 1) as int,
            );
            assert(m / p == q && m % p == r + 1);
        } else {
            assert(m == (q + 1) * p + 0) by (nonlinear_arith)
                requires
                    k == p * q + r,
                    r + 1 == p,
                    m == k + 1,
            ;
            vstd::arithmetic::div_mod::lemma_fundamental_div_mod_converse(
                m as int,
                p as int,
                (q + 1) as int,
                0,
            );
            assert(m / p == q + 1 && m % p == 0);
        }
    }
}

/// `v` and `u` agree in their first `total` digits in base `base`.
pub open spec fn same_digits(v: nat, u: nat, base: nat, total: nat) -> bool {
    forall|i: nat| i < total ==> #[trigger] digit(v, base, i) == digit(u, base, i)
}

/// How many numbers below `m` agree with `u` in their first `total` digits:
/// how many entropy values give the batch that `u` gives.
pub open spec fn count_same_digits(m: nat, u: nat, base: nat, total: nat) -> nat
    decreases m,
{
    if m == 0 {
        0
    } else {
        count_same_digits((m - 1) as nat, u, base, total) + if same_digits(
            (m - 1) as nat,
            u,
            base,
            total,
        ) {
            1nat
        } else {
            0nat
        }
    }
}

proof fn lemma_same_digits_iff_residue(v: nat, u: nat, base: nat, total: nat)
    requires
        base > 0,
        u < power(base, total),
    ensures
        same_digits(v, u, base, total) <==> v % power(base, total) == u,
{
    let p = power(base, total);
    lemma_power_positive(base, total);
    vstd::arithmetic::div_mod::lemma_fundamental_div_mod_converse(u as int, p as int, 0, u as int);
    if v % p == u {
        assert forall|i: nat| i < total implies #[trigger] digit(v, base, i) == digit(
            u,
            base,
            i,
        ) by {
            digits_depend_on_residue(v, base, total, i);
        }
    } else if same_digits(v, u, base, total) {
        digits_are_injective(v % p, u, base, total);
        let i = choose|i: nat| i < total && #[trigger] digit(v % p, base, i) != digit(u, base, i);
        digits_depend_on_residue(v, base, total, i);
        assert(digit(v, base, i) == digit(u, base, i));
    }
}

/// Among the numbers below `m`, every batch of `total` digits in base
/// `base` (named by the `u < base^total` that gives it) comes from
/// `m / base^total` of them, or from one more: with `m = 256^n` equally
/// likely entropy values, every batch has nearly the same chance.
pub proof fn batches_are_balanced(m: nat, u: nat, base: nat, total: nat)
    requires
        base > 0,
        u < power(base, total),
    ensures
        count_same_digits(m, u, base, total) == count_residue(m, power(base, total), u),
        count_same_digits(m, u, base, total) == m / power(base, total) + if u < m % power(
            base,
            total,
        ) {
            1nat
        } else {
            0nat
        },
    decreases m,
{
    lemma_power_positive(base, total);
    if m > 0 {
        let k = (m - 1) as nat;
        batches_are_balanced(k, u, base, total);
        lemma_same_digits_iff_residue(k, u, base, total);
    }
    residues_are_balanced(m, power(base, total), u);
}

/// The bytes of a charset as characters.
pub open spec fn charset_chars(charset: Seq<u8>) -> Seq<char> {
    charset.map_values(|b: u8| b as char)
}

/// Every character of `text` is one of the bytes of `charset`.
pub open spec fn over_charset(text: Seq<char>, charset: Seq<u8>) -> bool {
    forall|j: int| 0 <= j < text.len() ==> charset_chars(charset).contains(#[trigger] text[j])
}

/// Every password read off a number has the requested length, and each of
/// its characters comes from the charset.
pub proof fn password_over_charset(charset: Seq<u8>, v: nat, len: nat, k: nat)
    requires
        charset.len() > 0,
    ensures
        password(charset, v, len, k).len() == len,
        over_charset(password(charset, v, len, k), charset),
{
    let p = password(charset, v, len, k);
    assert forall|j: int| 0 <= j < p.len() implies charset_chars(charset).contains(
        #[trigger] p[j],
    ) by {
        let i = digit(v, charset.len(), k * len + j as nat) as int;
        assert(0 <= i < charset.len());
        assert(p[j] == charset_chars(charset)[i]);
    }
}

/// The number of random bytes drawn for `total` characters over `base`
/// symbols: one more than the whole bytes in the bit length of
/// `base^total - 1`.
pub open spec fn entropy_len(base: nat, total: nat) -> nat {
    bit_length((power(base, total) - 1) as nat) / 8 + 1
}

/// The charset that `generate` works with: the compiled specification, or
/// all of printable ASCII when there is none.
pub open spec fn chosen_charset(charset_spec: Option<&String>) -> Result<Seq<u8>, PasswordError> {
    match charset_spec {
        Some(s) => compile(encode_utf8(s@)),
        None => Ok(listing(typeable_set())),
    }
}

/// `passwords` is the batch of `count` passwords of `len` characters that
/// the random bytes `entropy` give over `charset`.
pub open spec fn is_batch(
    passwords: Seq<String>,
    charset: Seq<u8>,
    entropy: Seq<u8>,
    len: nat,
    count: nat,
) -> bool {
    &&& passwords.len() == count
    &&& entropy.len() == entropy_len(charset.len(), len * count)
    &&& forall|k: int|
        0 <= k < count ==> #[trigger] passwords[k]@ == password(
            charset,
            le_value(entropy),
            len,
            k as nat,
        )
}

/// Relies on `RngCore::try_fill_bytes` for `OsRng`: the buffer keeps its
/// length; its bytes come from the system's source, or the source's error
/// is handed back.
#[verifier::external_body]
fn fill_random(buffer: &mut Vec<u8>) -> (r: Result<(), rand::Error>)
    ensures
        final(buffer)@.len() == old(buffer)@.len(),
{
    OsRng.try_fill_bytes(buffer.as_mut_slice())
}

/// All of printable ASCII, ascending.
fn typeable_charset() -> (r: Vec<u8>)
    ensures
        r@ == listing(typeable_set()),
        is_charset(r@),
{
    let mut out: Vec<u8> = Vec::new();
    let mut j: usize = 0;
    while j < 128
        invariant
            j <= 128,
            out@ == listing_below(typeable_set(), j as nat),
        decreases 128 - j,
    {
        if 0x20 <= j && j <= 0x7e {
            out.push(j as u8);
        }
        j = j + 1;
    }
    proof {
        lemma_listing_below(typeable_set(), 128);
        assert(listing(typeable_set()).contains(0x20u8));
        lemma_listing_is_charset(typeable_set());
    }
    out
}

/// Strictly ascending bytes stand at least as high as their position.
proof fn lemma_ascending_above_index(c: Seq<u8>, i: int)
    requires
        forall|a: int, b: int| 0 <= a < b < c.len() ==> c[a] < c[b],
        0 <= i < c.len(),
    ensures
        c[i] >= i,
    decreases i,
{
    if i > 0 {
        lemma_ascending_above_index(c, i - 1);
    }
}

/// How many random bytes a batch of `total` characters over `base` symbols
/// draws: the whole bytes in the bit length of `base^total - 1`, plus one.
pub fn entropy_bytes(base: usize, total: usize) -> (n: usize)
    requires
        1 <= base <= 128,
        total >= 1,
    ensures
        n == entropy_len(base as nat, total as nat),
        n <= total,
{
    let big_base = big_from_usize(base);
    let all = big_pow(&big_base, total);
    proof {
        lemma_power_positive(base as nat, total as nat);
        lemma_bit_length_of_power(
            (power(base as nat, total as nat) - 1) as nat,
            base as nat,
            total as nat,
        );
    }
    let top = big_sub(all, 1);
    let bits = big_bits(&top);
    let num_bytes: u64 = bits / 8 + 1;
    assert(num_bytes <= total) by (nonlinear_arith)
        requires
            bits <= 7 * total,
            total >= 1,
            num_bytes == bits / 8 + 1,
    ;
    num_bytes as usize
}

/// Finishes a batch from the outcome of the entropy draw: a failed draw is
/// the entropy error, carried through; drawn bytes give the passwords.
pub fn passwords_from_draw(
    charset: &Vec<u8>,
    draw: Result<Vec<u8>, rand::Error>,
    password_len: usize,
    num_passwords: usize,
) -> (r: Result<Vec<String>, PasswordError>)
    requires
        is_charset(charset@),
    ensures
        draw is Err ==> r == Err::<Vec<String>, PasswordError>(
            PasswordError::Entropy(draw->Err_0),
        ),
        draw is Ok ==> r is Ok && (r->Ok_0)@.len() == num_passwords && forall|k: int|
            0 <= k < num_passwords ==> #[trigger] (r->Ok_0)@[k]@ == password(
                charset@,
                le_value(draw->Ok_0@),
                password_len as nat,
                k as nat,
            ),
{
    match draw {
        Ok(entropy) => Ok(passwords_from_entropy(charset, &entropy, password_len, num_passwords)),
        Err(e) => Err(PasswordError::Entropy(e)),
    }
}

/// Generates `num_passwords` passwords of `password_len` characters over the
/// charset that `charset_spec` compiles to (all printable ASCII without one),
/// from one draw of `entropy_bytes` bytes from the system's entropy source.
pub fn generate(charset_spec: Option<&String>, password_len: usize, num_passwords: usize) -> (r:
    Result<Vec<String>, PasswordError>)
    requires
        password_len >= 1,
        num_passwords >= 1,
        password_len * num_passwords <= usize::MAX,
    ensures
        chosen_charset(charset_spec) is Err ==> r is Err && r->Err_0 == chosen_charset(
            charset_spec,
        )->Err_0,
        chosen_charset(charset_spec) is Ok && r is Err ==> r->Err_0 is Entropy,
        r is Ok ==> chosen_charset(charset_spec) is Ok && exists|entropy: Seq<u8>|
            #[trigger] is_batch(
                (r->Ok_0)@,
                chosen_charset(charset_spec)->Ok_0,
                entropy,
                password_len as nat,
                num_passwords as nat,
            ),
        r matches Ok(ps) ==> forall|k: int|
            0 <= k < ps@.len() ==> (#[trigger] ps@[k])@.len() == password_len && over_charset(
                ps@[k]@,
                chosen_charset(charset_spec)->Ok_0,
            ),
{
    let charset = match charset_spec {
        Some(s) => match parse_charset_spec(s) {
            Ok(c) => c,
            Err(e) => {
                return Err(e);
            },
        },
        None => typeable_charset(),
    };
    let ghost c = charset@;
    let total: usize = password_len * num_passwords;
    assert(total >= 1) by (nonlinear_arith)
        requires
            password_len >= 1,
            num_passwords >= 1,
            total == password_len * num_passwords,
    ;
    proof {
        lemma_ascending_above_index(c, c.len() - 1);
        assert(is_typeable(c[c.len() - 1]));
    }
    let n = entropy_bytes(charset.len(), total);
    let mut buffer: Vec<u8> = Vec::new();
    while buffer.len() < n
        invariant
            buffer@.len() <= n,
            chosen_charset(charset_spec) == Ok::<Seq<u8>, PasswordError>(c),
        decreases n - buffer@.len(),
    {
        buffer.push(0);
    }
    let outcome = fill_random(&mut buffer);
    let ghost drawn = buffer@;
    let draw = match outcome {
        Ok(()) => Ok(buffer),
        Err(e) => Err(e),
    };
    let r = passwords_from_draw(&charset, draw, password_len, num_passwords);
    proof {
        assert(chosen_charset(charset_spec)->Ok_0 == c);
        if r is Ok {
            let ps = (r->Ok_0)@;
            assert(drawn.len() == entropy_len(c.len(), password_len as nat * num_passwords as nat));
            assert(is_batch(ps, c, drawn, password_len as nat, num_passwords as nat));
            assert forall|k: int| 0 <= k < ps.len() implies (#[trigger] ps[k])@.len()
                == password_len && over_charset(ps[k]@, c) by {
                password_over_charset(c, le_value(drawn), password_len as nat, k as nat);
            }
        }
    }
    r
}

} // verus!
