//! The text and number utilities behind the Hill cipher: namespace
//! validation, key and source padding, and the perfect-square and
//! divisibility arithmetic the padding rests on.

use vstd::prelude::*;

use crate::error::Error;

verus! {

/// The ASCII uppercase counterpart of a character; anything but a lowercase
/// ASCII letter stands as it is.
pub open spec fn up_char(c: char) -> char {
    if 'a' <= c && c <= 'z' {
        (((c as u32) - 32) as u8) as char
    } else {
        c
    }
}

/// A character sequence uppercased character by character.
pub open spec fn upper_seq(s: Seq<char>) -> Seq<char> {
    Seq::new(s.len(), |i: int| up_char(s[i]))
}

/// The character `c` repeated `n` times.
pub open spec fn repeated(c: char, n: nat) -> Seq<char> {
    Seq::new(n, |_i: int| c)
}

/// `n` is a perfect square.
pub open spec fn is_square_spec(n: int) -> bool {
    exists|k: int| 0 <= k && #[trigger] (k * k) == n
}

/// Squares of machine-sized numbers stay within twice the machine width.
proof fn lemma_square_fits()
    ensures
        forall|j: int|
            0 <= j <= usize::MAX ==> #[trigger] (j * j) <= u128::MAX,
{
    assert forall|j: int| 0 <= j <= usize::MAX implies #[trigger] (j * j) <= u128::MAX by {
        assert(j * j <= 0xffff_ffff_ffff_ffff * 0xffff_ffff_ffff_ffff) by (nonlinear_arith)
            requires 0 <= j <= 0xffff_ffff_ffff_ffff;
    }
}

/// The message naming a character the namespace does not hold.
pub open spec fn unknown_char_message(c: char) -> Seq<char> {
    "the character '"@ + seq![c] + "' is not present in the namespace"@
}

/// The default namespace of the cipher: the uppercase alphabet and the
/// space.
pub open spec fn default_namespace_spec() -> Seq<char> {
    "ABCDEFGHIJKLMNOPQRSTUVWXYZ "@
}

/// Relies on `String::push`: it appends exactly the one character.
#[verifier::external_body]
fn push_char(s: &mut String, c: char)
    ensures
        final(s)@ == old(s)@.push(c),
{
    s.push(c);
}

/// ASCII-uppercases one character.
fn to_upper(c: char) -> (r: char)
    ensures
        r == up_char(c),
{
    let u = c as u32;
    if 97 <= u && u <= 122 {
        ((u - 32) as u8) as char
    } else {
        c
    }
}

/// Collects the characters of a string.
fn chars_vec(s: &str) -> (r: Vec<char>)
    ensures
        r@ == s@,
{
    let n = s.unicode_len();
    let mut r: Vec<char> = Vec::new();
    let mut i: usize = 0;
    while i < n
        invariant
            i <= n,
            n == s@.len(),
            r@ == s@.take(i as int),
        decreases n - i,
    {
        r.push(s.get_char(i));
        proof {
            assert(r@ =~= s@.take(i + 1));
        }
        i += 1;
    }
    proof {
        assert(s@.take(n as int) =~= s@);
    }
    r
}

/// The default namespace as a character vector.
pub fn default_namespace() -> (r: Vec<char>)
    ensures
        r@ == default_namespace_spec(),
{
    chars_vec("ABCDEFGHIJKLMNOPQRSTUVWXYZ ")
}

/// Checks that the character is part of the namespace; otherwise reports it
/// as unknown.
pub fn is_in_namespace(c: &char, namespace: &[char]) -> (r: Result<(), Error>)
    ensures
        r is Ok <==> namespace@.contains(*c),
        r is Err ==> !namespace@.contains(*c) && (match r {
            Result::Err(e) => e.spec_message() == unknown_char_message(*c),
            Result::Ok(_) => false,
        }),
{
    let n = namespace.len();
    let mut i: usize = 0;
    while i < n
        invariant
            i <= n,
            n == namespace@.len(),
            forall|j: int| 0 <= j < i ==> namespace@[j] != *c,
        decreases n - i,
    {
        if namespace[i] == *c {
            proof {
                assert(namespace@[i as int] == *c);
            }
            return Ok(());
        }
        i += 1;
    }
    proof {
        if namespace@.contains(*c) {
            let j = choose|j: int| 0 <= j < namespace@.len() && namespace@[j] == *c;
            assert(false);
        }
    }
    let mut msg = String::from_str("the character '");
    push_char(&mut msg, *c);
    msg.append("' is not present in the namespace");
    proof {
        assert(msg@ =~= unknown_char_message(*c));
    }
    Err(Error::ProcessingError(msg))
}

/// The position of the character's uppercase form inside the namespace. The
/// namespace must hold it.
pub fn char_pos(c: &char, namespace: &[char]) -> (r: usize)
    requires
        namespace@.contains(up_char(*c)),
    ensures
        r < namespace@.len(),
        namespace@[r as int] == up_char(*c),
        forall|j: int| 0 <= j < r ==> namespace@[j] != up_char(*c),
{
    let target = to_upper(*c);
    let n = namespace.len();
    let mut i: usize = 0;
    while i < n
        invariant
            i <= n,
            n == namespace@.len(),
            target == up_char(*c),
            namespace@.contains(up_char(*c)),
            forall|j: int| 0 <= j < i ==> namespace@[j] != up_char(*c),
        decreases n - i,
    {
        if namespace[i] == target {
            return i;
        }
        i += 1;
    }
    proof {
        let j = choose|j: int| 0 <= j < namespace@.len() && namespace@[j] == up_char(*c);
        assert(false);
    }
    0
}

/// Checks the fill character, the key and the source text against the
/// namespace: every character must belong to it.
#[verifier::loop_isolation(false)]
pub fn chek_information(key: &str, src: &str, fill: Option<&char>, namespace: &[char]) -> (r:
    Result<(), Error>)
    ensures
        r is Ok <==> ((match fill {
            Some(f) => namespace@.contains(*f),
            None => true,
        }) && (forall|i: int| 0 <= i < key@.len() ==> namespace@.contains(#[trigger] key@[i])) && (
        forall|i: int| 0 <= i < src@.len() ==> namespace@.contains(#[trigger] src@[i]))),
        r is Err ==> (match r {
            Result::Err(e) => {
                if (match fill {
                    Some(f) => !namespace@.contains(*f),
                    None => false,
                }) {
                    match fill {
                        Some(f) => e.spec_message() == unknown_char_message(*f),
                        None => false,
                    }
                } else if exists|i: int|
                    0 <= i < key@.len() && !namespace@.contains(#[trigger] key@[i]) {
                    exists|i: int|
                        0 <= i < key@.len() && !namespace@.contains(#[trigger] key@[i]) && (forall|
                            j: int,
                        | 0 <= j < i ==> namespace@.contains(#[trigger] key@[j]))
                            && e.spec_message() == unknown_char_message(key@[i])
                } else {
                    exists|i: int|
                        0 <= i < src@.len() && !namespace@.contains(#[trigger] src@[i]) && (forall|
                            j: int,
                        | 0 <= j < i ==> namespace@.contains(#[trigger] src@[j]))
                            && e.spec_message() == unknown_char_message(src@[i])
                }
            },
            Result::Ok(_) => false,
        }),
{
    if let Some(f) = fill {
        let checked = is_in_namespace(f, namespace);
        if let Err(e) = checked {
            return Err(e);
        }
    }
    let key_chars = chars_vec(key);
    let mut i: usize = 0;
    while i < key_chars.len()
        invariant
            i <= key_chars@.len(),
            key_chars@ == key@,
            forall|j: int| 0 <= j < i ==> namespace@.contains(#[trigger] key@[j]),
        decreases key_chars@.len() - i,
    {
        let checked = is_in_namespace(&key_chars[i], namespace);
        if let Err(e) = checked {
            proof {
                assert(0 <= i < key@.len() && !namespace@.contains(#[trigger] key@[i as int]) && (
                forall|j: int| 0 <= j < i ==> namespace@.contains(#[trigger] key@[j]))
                    && e.spec_message() == unknown_char_message(key@[i as int]));
            }
            return Err(e);
        }
        i += 1;
    }
    let src_chars = chars_vec(src);
    let mut i2: usize = 0;
    while i2 < src_chars.len()
        invariant
            i2 <= src_chars@.len(),
            src_chars@ == src@,
            forall|j: int| 0 <= j < i2 ==> namespace@.contains(#[trigger] src@[j]),
        decreases src_chars@.len() - i2,
    {
        let checked = is_in_namespace(&src_chars[i2], namespace);
        if let Err(e) = checked {
            proof {
                assert(forall|j: int| 0 <= j < key@.len() ==> namespace@.contains(#[trigger] key@[j]));
                assert(0 <= i2 < src@.len() && !namespace@.contains(#[trigger] src@[i2 as int]) && (
                forall|j: int| 0 <= j < i2 ==> namespace@.contains(#[trigger] src@[j]))
                    && e.spec_message() == unknown_char_message(src@[i2 as int]));
            }
            return Err(e);
        }
        i2 += 1;
    }
    Ok(())
}

/// Pads `txt` with `a - b` copies of the fill character. When any padding
/// happens the whole result is uppercased; an unpadded text stays as it is.
pub fn fill_text(txt: &str, fill: &char, a: usize, b: usize) -> (r: String)
    requires
        b <= a,
        b == txt@.len(),
    ensures
        a == b ==> r@ == txt@,
        a > b ==> r@ == upper_seq(txt@) + repeated(up_char(*fill), (a - b) as nat),
{
    let reps = a - b;
    if reps != 0 {
        let chars = chars_vec(txt);
        let mut out = String::new();
        let mut i: usize = 0;
        while i < chars.len()
            invariant
                i <= chars@.len(),
                chars@ == txt@,
                out@ == upper_seq(txt@).take(i as int),
            decreases chars@.len() - i,
        {
            push_char(&mut out, to_upper(chars[i]));
            proof {
                assert(out@ =~= upper_seq(txt@).take(i + 1));
            }
            i += 1;
        }
        proof {
            assert(upper_seq(txt@).take(txt@.len() as int) =~= upper_seq(txt@));
        }
        let up = to_upper(*fill);
        let mut j: usize = 0;
        while j < reps
            invariant
                j <= reps,
                up == up_char(*fill),
                out@ == upper_seq(txt@) + repeated(up_char(*fill), j as nat),
            decreases reps - j,
        {
            push_char(&mut out, up);
            proof {
                assert(out@ =~= upper_seq(txt@) + repeated(up_char(*fill), (j + 1) as nat));
            }
            j += 1;
        }
        out
    } else {
        txt.to_owned()
    }
}

/// Whether some number in `[target, number)` divides `target`. The probe
/// starts at `target` itself.
pub fn has_any_factor(target: usize, number: usize) -> (r: bool)
    requires
        target >= 1,
    ensures
        r == exists|f: int| target <= f < number && #[trigger] (target as int % f) == 0,
{
    let mut factor = target;
    while factor < number
        invariant
            target <= factor,
            target >= 1,
            forall|f: int| target <= f < factor ==> #[trigger] (target as int % f) != 0,
        decreases number - factor,
    {
        if target % factor == 0 {
            proof {
                assert(target as int % (factor as int) == 0);
            }
            return true;
        }
        factor += 1;
    }
    proof {
        if exists|f: int| target <= f < number && #[trigger] (target as int % f) == 0 {
            let f = choose|f: int| target <= f < number && #[trigger] (target as int % f) == 0;
            assert(false);
        }
    }
    false
}

/// Whether the number is a perfect square.
#[verifier::loop_isolation(false)]
pub fn is_square(num: usize) -> (r: bool)
    ensures
        r == is_square_spec(num as int),
{
    proof {
        lemma_square_fits();
    }
    let mut k: usize = 0;
    while (k as u128) * (k as u128) < num as u128
        invariant
            k <= num,
            forall|j: int| 0 <= j < k ==> #[trigger] (j * j) < num,
        decreases num - k,
    {
        proof {
            assert(k + 1 <= num) by {
                if k >= 1 {
                    assert((k as int) * (k as int) >= k as int) by (nonlinear_arith)
                        requires k >= 1;
                }
            }
            assert forall|j: int| 0 <= j < k + 1 implies #[trigger] (j * j) < num by {
                if j < k {
                } else {
                    assert((k as int) * (k as int) < num as int);
                }
            }
        }
        k += 1;
    }
    if (k as u128) * (k as u128) == num as u128 {
        proof {
            assert((k as int) * (k as int) == num as int);
        }
        true
    } else {
        proof {
            assert forall|j: int| !(0 <= j && #[trigger] (j * j) == num as int) by {
                if 0 <= j < k {
                    assert(j * j < num);
                } else if j >= k {
                    assert(j * j >= (k as int) * (k as int)) by (nonlinear_arith)
                        requires j >= k >= 0;
                    assert((k as int) * (k as int) > num as int);
                }
            }
        }
        false
    }
}

/// Whether `target` divides evenly into groups of `num`.
pub fn is_divisble(target: usize, num: &usize) -> (r: bool)
    requires
        *num >= 1,
    ensures
        r == (target as int % (*num as int) == 0),
{
    target % *num == 0
}

/// The smallest perfect square at or above `dim`.
#[verifier::loop_isolation(false)]
pub fn turn_perfect_sqrt(dim: usize) -> (r: usize)
    requires
        exists|k: int| 0 <= k && dim <= #[trigger] (k * k) && k * k <= usize::MAX,
    ensures
        is_square_spec(r as int),
        r >= dim,
        forall|m: int| dim <= m < r ==> !is_square_spec(m),
{
    let ghost k0 = choose|k: int| 0 <= k && dim <= #[trigger] (k * k) && k * k <= usize::MAX;
    proof {
        lemma_square_fits();
        assert(k0 <= usize::MAX) by (nonlinear_arith)
            requires 0 <= k0 && k0 * k0 <= usize::MAX;
    }
    let mut k: usize = 0;
    while (k as u128) * (k as u128) < dim as u128
        invariant
            (k as int) <= k0,
            forall|j: int| 0 <= j < k ==> #[trigger] (j * j) < dim,
            0 <= k0 && dim <= k0 * k0 <= usize::MAX,
        decreases k0 - k,
    {
        proof {
            assert((k as int) < k0) by {
                if (k as int) >= k0 {
                    assert((k as int) * (k as int) >= k0 * k0) by (nonlinear_arith)
                        requires (k as int) >= k0 >= 0;
                }
            }
            assert forall|j: int| 0 <= j < k + 1 implies #[trigger] (j * j) < dim by {
                if j == k {
                    assert((k as int) * (k as int) < dim as int);
                }
            }
        }
        k += 1;
    }
    proof {
        assert((k as int) * (k as int) <= k0 * k0) by (nonlinear_arith)
            requires 0 <= (k as int) <= k0;
    }
    let r = k * k;
    proof {
        assert(is_square_spec(r as int));
        assert forall|m: int| dim <= m < r implies !is_square_spec(m) by {
            if is_square_spec(m) {
                let j = choose|j: int| 0 <= j && #[trigger] (j * j) == m;
                if j < k {
                    assert(j * j < dim);
                } else {
                    assert(j * j >= (k as int) * (k as int)) by (nonlinear_arith)
                        requires j >= (k as int) >= 0;
                }
                assert(false);
            }
        }
    }
    r
}

/// The smallest number at or above `target` that `dim` divides.
#[verifier::loop_isolation(false)]
pub fn turn_divisible(target: usize, dim: &usize) -> (r: usize)
    requires
        *dim >= 1,
        target as int + *dim as int <= usize::MAX,
    ensures
        r as int % (*dim as int) == 0,
        r >= target,
        forall|m: int| target <= m < r ==> #[trigger] (m % (*dim as int)) != 0,
{
    let ghost d = *dim as int;
    let ghost t = target as int;
    let ghost q = t / d;
    let ghost first: int = if t % d == 0 {
        t
    } else {
        (q + 1) * d
    };
    proof {
        vstd::arithmetic::div_mod::lemma_fundamental_div_mod(t, d);
        vstd::arithmetic::div_mod::lemma_mod_bound(t, d);
        assert(first % d == 0) by {
            if t % d == 0 {
            } else {
                vstd::arithmetic::div_mod::lemma_mod_multiples_basic(q + 1, d);
            }
        }
        assert(t <= first <= t + d - 1) by {
            if t % d != 0 {
                assert((q + 1) * d == q * d + d) by (nonlinear_arith);
            }
        }
        assert forall|m: int| t <= m < first implies #[trigger] (m % d) != 0 by {
            if m % d == 0 {
                vstd::arithmetic::div_mod::lemma_fundamental_div_mod(m, d);
                let qm = m / d;
                assert(m == d * qm);
                assert(t % d != 0);
                assert(m >= t > q * d) by (nonlinear_arith)
                    requires m >= t && t == d * q + t % d && t % d > 0;
                assert(qm > q) by (nonlinear_arith)
                    requires d >= 1 && d * qm > q * d;
                assert(m >= (q + 1) * d) by (nonlinear_arith)
                    requires d >= 1 && qm >= q + 1 && m == d * qm;
                assert(false);
            }
        }
    }
    let mut base = target;
    while base % *dim != 0
        invariant
            target <= base,
            (base as int) <= first,
            *dim >= 1,
            d == *dim as int,
            t == target as int,
            first <= t + d - 1,
            first % d == 0,
            forall|m: int| t <= m < first ==> #[trigger] (m % d) != 0,
        decreases first - base,
    {
        proof {
            assert((base as int) < first) by {
                assert((base as int) % d != 0);
            }
        }
        base += 1;
    }
    proof {
        assert((base as int) <= first);
        assert forall|m: int| t <= m < base implies #[trigger] (m % d) != 0 by {
            assert(m < first);
        }
    }
    base
}

/// Pads a key of non-square length up to the next perfect square with the
/// fill character.
pub fn fill_key(key: &str, fill: &char) -> (r: Result<String, Error>)
    requires
        exists|k: int| 0 <= k && key@.len() <= #[trigger] (k * k) && k * k <= usize::MAX,
    ensures
        match r {
            Result::Ok(filled) => exists|a: int|
                {
                    &&& is_square_spec(a)
                    &&& a >= key@.len()
                    &&& (forall|m: int| key@.len() <= m < a ==> !#[trigger] is_square_spec(m))
                    &&& (a == key@.len() ==> filled@ == key@)
                    &&& (a > key@.len() ==> filled@ == upper_seq(key@) + repeated(
                        up_char(*fill),
                        (a - key@.len()) as nat,
                    ))
                },
            Result::Err(_) => false,
        },
{
    let key_len = key.unicode_len();
    let a = turn_perfect_sqrt(key_len);
    let filled = fill_text(key, fill, a, key_len);
    proof {
        assert(is_square_spec(a as int) && a >= key@.len());
    }
    Ok(filled)
}

/// Pads a source text whose length the key dimension does not divide up to
/// the next length it does divide.
pub fn fill_src(src: &str, fill: &char, key_dim: &usize) -> (r: Result<String, Error>)
    requires
        *key_dim >= 1,
        src@.len() + *key_dim as int <= usize::MAX,
    ensures
        match r {
            Result::Ok(filled) => exists|a: int|
                #![trigger a % (*key_dim as int)]
                {
                    &&& a % (*key_dim as int) == 0
                    &&& a >= src@.len()
                    &&& (forall|m: int|
                        src@.len() <= m < a ==> #[trigger] (m % (*key_dim as int)) != 0)
                    &&& (a == src@.len() ==> filled@ == src@)
                    &&& (a > src@.len() ==> filled@ == upper_seq(src@) + repeated(
                        up_char(*fill),
                        (a - src@.len()) as nat,
                    ))
                },
            Result::Err(_) => false,
        },
{
    let src_len = src.unicode_len();
    let a = turn_divisible(src_len, key_dim);
    let filled = fill_text(src, fill, a, src_len);
    Ok(filled)
}

} // verus!
