//! The fixed, ordered set of partition keys that covers the key space.
use vstd::prelude::*;

verus! {

/// Number of keys of `width` characters over an alphabet of `n` symbols.
pub open spec fn key_count(n: nat, width: nat) -> nat
    decreases width,
{
    if width == 0 {
        1
    } else {
        key_count(n, (width - 1) as nat) * n
    }
}

/// The key at position `i` of the ordering: `i` written in base `|alphabet|`,
/// zero-padded to `width` digits, most significant digit first.
pub open spec fn key_at(alphabet: Seq<char>, i: nat, width: nat) -> Seq<char>
    decreases width,
{
    if width == 0 || alphabet.len() == 0 {
        Seq::empty()
    } else {
        key_at(alphabet, i / alphabet.len(), (width - 1) as nat).push(
            alphabet[(i % alphabet.len()) as int],
        )
    }
}

/// All symbols of the alphabet are distinct.
pub open spec fn distinct_symbols(alphabet: Seq<char>) -> bool {
    forall|a: int, b: int|
        0 <= a < alphabet.len() && 0 <= b < alphabet.len() && a != b ==> alphabet[a] != alphabet[b]
}

/// `s` is a key of the key space: `width` symbols drawn from the alphabet.
pub open spec fn is_key(alphabet: Seq<char>, width: nat, s: Seq<char>) -> bool {
    s.len() == width && forall|k: int| 0 <= k < s.len() ==> alphabet.contains(#[trigger] s[k])
}

/// The sixteen lowercase hexadecimal digits, in numeric order.
pub open spec fn hex_alphabet() -> Seq<char> {
    seq!['0', '1', '2', '3', '4', '5', '6', '7', '8', '9', 'a', 'b', 'c', 'd', 'e', 'f']
}

/// Relies on std's `String::push`: appends one character.
#[verifier::external_body]
pub(crate) fn push_char(s: &mut String, c: char)
    ensures
        final(s)@ == old(s)@.push(c),
{
    s.push(c)
}

/// Every key of `width` symbols over `alphabet`, in the numeric order of
/// the positions they stand for.
pub fn generate_partitions(alphabet: &Vec<char>, width: usize) -> (r: Vec<String>)
    requires
        alphabet@.len() > 0,
        key_count(alphabet@.len(), width as nat) <= usize::MAX,
    ensures
        r@.len() == key_count(alphabet@.len(), width as nat),
        forall|i: int| 0 <= i < r@.len() ==> #[trigger] r@[i]@ == key_at(alphabet@, i as nat, width as nat),
{
    let n = alphabet.len();
    let mut keys: Vec<String> = Vec::new();
    keys.push(String::new());
    let mut w: usize = 0;
    while w < width
        invariant
            n == alphabet@.len(),
            n > 0,
            w <= width,
            key_count(n as nat, width as nat) <= usize::MAX,
            keys@.len() == key_count(n as nat, w as nat),
            forall|i: int| 0 <= i < keys@.len() ==> #[trigger] keys@[i]@ == key_at(alphabet@, i as nat, w as nat),
        decreases width - w,
    {
        proof {
            lemma_key_count_mono(n as nat, (w + 1) as nat, width as nat);
        }
        let mut next: Vec<String> = Vec::new();
        let mut j: usize = 0;
        while j < keys.len()
            invariant
                n == alphabet@.len(),
                n > 0,
                j <= keys@.len(),
                keys@.len() * n <= usize::MAX,
                next@.len() == j * n,
                forall|i: int| 0 <= i < next@.len() ==> #[trigger] next@[i]@ == key_at(alphabet@, i as nat, (w + 1) as nat),
                forall|i: int| 0 <= i < keys@.len() ==> #[trigger] keys@[i]@ == key_at(alphabet@, i as nat, w as nat),
            decreases keys@.len() - j,
        {
            let mut d: usize = 0;
            while d < n
                invariant
                    n == alphabet@.len(),
                    n > 0,
                    j < keys@.len(),
                    d <= n,
                    keys@.len() * n <= usize::MAX,
                    next@.len() == j * n + d,
                    forall|i: int| 0 <= i < next@.len() ==> #[trigger] next@[i]@ == key_at(alphabet@, i as nat, (w + 1) as nat),
                    forall|i: int| 0 <= i < keys@.len() ==> #[trigger] keys@[i]@ == key_at(alphabet@, i as nat, w as nat),
                decreases n - d,
            {
                proof {
                    assert(j * n + d < keys@.len() * n) by (nonlinear_arith)
                        requires j < keys@.len(), d < n;
                    lemma_div_mod_step(j as nat, d as nat, n as nat);
                }
                let mut s = keys[j].clone();
                push_char(&mut s, alphabet[d]);
                next.push(s);
                d = d + 1;
            }
            proof {
                assert(j * n + n == (j + 1) * n) by (nonlinear_arith);
            }
            j = j + 1;
        }
        keys = next;
        w = w + 1;
    }
    keys
}

/// Every 4-digit lowercase hexadecimal string, "0000" to "ffff", in numeric order.
pub fn generate_hex_strings() -> (r: Vec<String>)
    ensures
        r@.len() == 65536,
        forall|i: int| 0 <= i < r@.len() ==> #[trigger] r@[i]@ == key_at(hex_alphabet(), i as nat, 4),
{
    let alphabet: Vec<char> = vec!['0', '1', '2', '3', '4', '5', '6', '7', '8', '9', 'a', 'b', 'c', 'd', 'e', 'f'];
    assert(alphabet@ == hex_alphabet());
    proof {
        reveal_with_fuel(key_count, 5);
    }
    generate_partitions(&alphabet, 4)
}

/// The generated keys cover the key space exactly once: every position names
/// a key of `width` symbols from the alphabet, no two positions name the
/// same key, and every such key is named by some position.
pub proof fn lemma_partitions_cover(alphabet: Seq<char>, width: nat)
    requires
        alphabet.len() > 0,
        distinct_symbols(alphabet),
    ensures
        forall|i: nat| i < key_count(alphabet.len(), width) ==> is_key(alphabet, width, #[trigger] key_at(alphabet, i, width)),
        forall|i: nat, j: nat|
            i < key_count(alphabet.len(), width) && j < key_count(alphabet.len(), width) && i != j
                ==> #[trigger] key_at(alphabet, i, width) != #[trigger] key_at(alphabet, j, width),
        forall|s: Seq<char>| #[trigger] is_key(alphabet, width, s) ==> exists|i: nat|
            i < key_count(alphabet.len(), width) && #[trigger] key_at(alphabet, i, width) == s,
{
    assert forall|i: nat| i < key_count(alphabet.len(), width) implies is_key(alphabet, width, #[trigger] key_at(alphabet, i, width)) by {
        lemma_key_is_key(alphabet, i, width);
    }
    assert forall|i: nat, j: nat|
        i < key_count(alphabet.len(), width) && j < key_count(alphabet.len(), width) && i != j
        implies #[trigger] key_at(alphabet, i, width) != #[trigger] key_at(alphabet, j, width) by {
        if key_at(alphabet, i, width) == key_at(alphabet, j, width) {
            lemma_key_injective(alphabet, i, j, width);
        }
    }
    assert forall|s: Seq<char>| #[trigger] is_key(alphabet, width, s) implies exists|i: nat|
        i < key_count(alphabet.len(), width) && #[trigger] key_at(alphabet, i, width) == s by {
        let i = lemma_key_index(alphabet, width, s);
    }
}

/// The 4-digit hexadecimal keys are exactly the 65536 strings "0000" to
/// "ffff", each once.
pub proof fn lemma_hex_strings_cover()
    ensures
        key_count(16, 4) == 65536,
        forall|i: nat, j: nat|
            i < 65536 && j < 65536 && i != j ==> #[trigger] key_at(hex_alphabet(), i, 4)
                != #[trigger] key_at(hex_alphabet(), j, 4),
        forall|s: Seq<char>| #[trigger] is_key(hex_alphabet(), 4, s) ==> exists|i: nat|
            i < 65536 && #[trigger] key_at(hex_alphabet(), i, 4) == s,
{
    reveal_with_fuel(key_count, 5);
    assert(hex_alphabet().len() == 16);
    assert(distinct_symbols(hex_alphabet()));
    lemma_partitions_cover(hex_alphabet(), 4);
}

proof fn lemma_key_is_key(alphabet: Seq<char>, i: nat, width: nat)
    requires
        alphabet.len() > 0,
    ensures
        is_key(alphabet, width, key_at(alphabet, i, width)),
    decreases width,
{
    if width > 0 {
        let n = alphabet.len();
        lemma_key_is_key(alphabet, i / n, (width - 1) as nat);
        let k = key_at(alphabet, i, width);
        assert forall|p: int| 0 <= p < k.len() implies alphabet.contains(#[trigger] k[p]) by {
            if p == k.len() - 1 {
                assert(alphabet[(i % n) as int] == k[p]);
            } else {
                assert(key_at(alphabet, i / n, (width - 1) as nat)[p] == k[p]);
            }
        }
    }
}

proof fn lemma_key_injective(alphabet: Seq<char>, i: nat, j: nat, width: nat)
    requires
        alphabet.len() > 0,
        distinct_symbols(alphabet),
        i < key_count(alphabet.len(), width),
        j < key_count(alphabet.len(), width),
        key_at(alphabet, i, width) == key_at(alphabet, j, width),
    ensures
        i == j,
    decreases width,
{
    let n = alphabet.len();
    if width > 0 {
        let w1 = (width - 1) as nat;
        let ki = key_at(alphabet, i, width);
        let kj = key_at(alphabet, j, width);
        assert(ki.last() == alphabet[(i % n) as int]);
        assert(kj.last() == alphabet[(j % n) as int]);
        assert(ki.drop_last() =~= key_at(alphabet, i / n, w1));
        assert(kj.drop_last() =~= key_at(alphabet, j / n, w1));
        vstd::arithmetic::div_mod::lemma_fundamental_div_mod(i as int, n as int);
        vstd::arithmetic::div_mod::lemma_fundamental_div_mod(j as int, n as int);
        let c = key_count(n, w1);
        assert(i / n < c) by (nonlinear_arith)
            requires i < c * n, n > 0, i == n * (i / n) + i % n, 0 <= i % n;
        assert(j / n < c) by (nonlinear_arith)
            requires j < c * n, n > 0, j == n * (j / n) + j % n, 0 <= j % n;
        lemma_key_injective(alphabet, i / n, j / n, w1);
    } else {
        assert(key_count(n, width) == 1);
    }
}

proof fn lemma_key_index(alphabet: Seq<char>, width: nat, s: Seq<char>) -> (i: nat)
    requires
        alphabet.len() > 0,
        is_key(alphabet, width, s),
    ensures
        i < key_count(alphabet.len(), width),
        key_at(alphabet, i, width) == s,
    decreases width,
{
    let n = alphabet.len();
    if width == 0 {
        assert(s =~= Seq::<char>::empty());
        0
    } else {
        let w1 = (width - 1) as nat;
        let front = s.drop_last();
        assert(is_key(alphabet, w1, front)) by {
            assert forall|k: int| 0 <= k < front.len() implies alphabet.contains(#[trigger] front[k]) by {
                assert(front[k] == s[k]);
            }
        }
        let j = lemma_key_index(alphabet, w1, front);
        assert(alphabet.contains(s[s.len() - 1]));
        let d: int = choose|d: int| 0 <= d < n && alphabet[d] == s.last();
        let i = j * n + d;
        assert(j * n + d < key_count(n, w1) * n) by (nonlinear_arith)
            requires j < key_count(n, w1), 0 <= d < n;
        lemma_div_mod_step(j, d as nat, n);
        assert(key_at(alphabet, i as nat, width) =~= s);
        i as nat
    }
}

proof fn lemma_key_count_mono(n: nat, a: nat, b: nat)
    requires
        n > 0,
        a <= b,
    ensures
        key_count(n, a) <= key_count(n, b),
        key_count(n, a) > 0,
    decreases b,
{
    if b > a {
        lemma_key_count_mono(n, a, (b - 1) as nat);
        assert(key_count(n, (b - 1) as nat) <= key_count(n, (b - 1) as nat) * n) by (nonlinear_arith)
            requires n > 0;
    } else if a > 0 {
        lemma_key_count_mono(n, (a - 1) as nat, (a - 1) as nat);
        assert(key_count(n, (a - 1) as nat) * n > 0) by (nonlinear_arith)
            requires n > 0, key_count(n, (a - 1) as nat) > 0;
    }
}

proof fn lemma_div_mod_step(j: nat, d: nat, n: nat)
    requires
        d < n,
    ensures
        (j * n + d) / n == j,
        (j * n + d) % n == d,
{
    vstd::arithmetic::div_mod::lemma_fundamental_div_mod_converse(
        (j * n + d) as int, n as int, j as int, d as int);
}

} // verus!
