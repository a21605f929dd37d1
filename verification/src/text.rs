//! Character-level string helpers used throughout the gateway:
//! equality, prefix tests and qualified role names.

use vstd::prelude::*;

verus! {

/// The qualified form of a role, `namespace::name`.
pub open spec fn qualified(ns: Seq<char>, name: Seq<char>) -> Seq<char> {
    ns + "::"@ + name
}

/// The prefix that marks an audience entry as belonging to a namespace.
pub open spec fn ns_prefix(ns: Seq<char>) -> Seq<char> {
    ns + "::"@
}

/// True when `p` is an initial segment of `s`.
pub open spec fn is_prefix_of(p: Seq<char>, s: Seq<char>) -> bool {
    p.len() <= s.len() && s.subrange(0, p.len() as int) == p
}

/// Appends one character to a string.
///
/// Relies on `String::push`: it appends exactly the given character.
#[verifier::external_body]
pub fn push_char(s: &mut String, c: char)
    ensures
        final(s)@ == old(s)@.push(c),
{
    s.push(c);
}

/// Character-for-character string equality.
pub fn str_eq(a: &str, b: &str) -> (r: bool)
    ensures
        r == (a@ == b@),
{
    let alen = a.unicode_len();
    let blen = b.unicode_len();
    if alen != blen {
        return false;
    }
    let mut i: usize = 0;
    while i < alen
        invariant
            alen == a@.len(),
            blen == b@.len(),
            alen == blen,
            i <= alen,
            forall|j: int| 0 <= j < i ==> a@[j] == b@[j],
        decreases alen - i,
    {
        if a.get_char(i) != b.get_char(i) {
            return false;
        }
        i = i + 1;
    }
    proof {
        assert(a@ =~= b@);
    }
    true
}

/// Prefix test over characters.
pub fn str_starts_with(s: &str, p: &str) -> (r: bool)
    ensures
        r == is_prefix_of(p@, s@),
{
    let slen = s.unicode_len();
    let plen = p.unicode_len();
    if plen > slen {
        return false;
    }
    let mut i: usize = 0;
    while i < plen
        invariant
            slen == s@.len(),
            plen == p@.len(),
            plen <= slen,
            i <= plen,
            forall|j: int| 0 <= j < i ==> s@[j] == p@[j],
        decreases plen - i,
    {
        if s.get_char(i) != p.get_char(i) {
            return false;
        }
        i = i + 1;
    }
    proof {
        assert(s@.subrange(0, p@.len() as int) =~= p@);
    }
    true
}

/// Renders `namespace::name`.
pub fn qualified_name(ns: &str, name: &str) -> (r: String)
    ensures
        r@ == qualified(ns@, name@),
{
    let mut s = ns.to_owned();
    s.append("::");
    s.append(name);
    s
}

/// Renders the `namespace::` prefix used for wildcard matching.
pub fn qualified_ns_prefix(ns: &str) -> (r: String)
    ensures
        r@ == ns_prefix(ns@),
{
    let mut s = ns.to_owned();
    s.append("::");
    s
}

/// Powers of ten.
pub open spec fn pow10(k: nat) -> nat
    decreases k,
{
    if k == 0 {
        1
    } else {
        10 * pow10((k - 1) as nat)
    }
}

/// True for the characters `'0'` through `'9'`.
pub open spec fn is_digit(c: char) -> bool {
    '0' <= c && c <= '9'
}

/// The numeric value of a digit character.
pub open spec fn digit_val(c: char) -> nat {
    (c as nat - '0' as nat) as nat
}

/// True when every character of `s` is a decimal digit.
pub open spec fn all_digits(s: Seq<char>) -> bool {
    forall|i: int| 0 <= i < s.len() ==> is_digit(s[i])
}

/// The number denoted by a digit string, most significant digit first.
pub open spec fn digits_val(s: Seq<char>) -> nat
    decreases s.len(),
{
    if s.len() == 0 {
        0
    } else {
        digits_val(s.drop_last()) * 10 + digit_val(s.last())
    }
}

/// A digit string as the library renders numbers: non-empty, digits
/// only, and no leading zero.
pub open spec fn is_canonical_digits(s: Seq<char>) -> bool {
    s.len() > 0 && all_digits(s) && (s.len() > 1 ==> s[0] != '0')
}

/// The digit character for a value below ten.
pub open spec fn digit_char(d: nat) -> char {
    ((48 + d) as u8) as char
}

/// The decimal rendering of a number, most significant digit first.
pub open spec fn digits_of(n: nat) -> Seq<char>
    decreases n,
{
    if n < 10 {
        seq![digit_char(n)]
    } else {
        digits_of(n / 10).push(digit_char(n % 10))
    }
}

proof fn lemma_digits_val_prepend(d: char, t: Seq<char>)
    ensures
        digits_val(seq![d] + t) == digit_val(d) * pow10(t.len()) + digits_val(t),
    decreases t.len(),
{
    if t.len() == 0 {
        assert(seq![d] + t =~= seq![d]);
        assert((seq![d]).drop_last() =~= Seq::<char>::empty());
        assert((seq![d]).last() == d);
        assert(digits_val(Seq::<char>::empty()) == 0);
        assert(digits_val(seq![d]) == digits_val((seq![d]).drop_last()) * 10 + digit_val(
            (seq![d]).last(),
        ));
        assert(digits_val(seq![d]) == digit_val(d));
        assert(pow10(t.len()) == 1);
        assert(digit_val(d) * 1 == digit_val(d));
    } else {
        assert((seq![d] + t).drop_last() =~= seq![d] + t.drop_last());
        assert((seq![d] + t).last() == t.last());
        lemma_digits_val_prepend(d, t.drop_last());
        assert(pow10(t.len()) == 10 * pow10((t.len() - 1) as nat));
        assert(digits_val(seq![d] + t) == (digit_val(d) * pow10((t.len() - 1) as nat)
            + digits_val(t.drop_last())) * 10 + digit_val(t.last()));
        assert((digit_val(d) * pow10((t.len() - 1) as nat) + digits_val(t.drop_last())) * 10
            + digit_val(t.last()) == digit_val(d) * (10 * pow10((t.len() - 1) as nat)) + (
        digits_val(t.drop_last()) * 10 + digit_val(t.last()))) by (nonlinear_arith);
    }
}

/// Renders a number in decimal, the way the gateway writes record
/// identifiers at its web boundary.
pub fn format_u64(n: u64) -> (r: String)
    ensures
        is_canonical_digits(r@),
        digits_val(r@) == n as nat,
        r@ == digits_of(n as nat),
{
    if n == 0 {
        let z = "0".to_owned();
        proof {
            reveal_strlit("0");
            assert(z@.len() == 1);
            assert(z@.drop_last() =~= Seq::<char>::empty());
            assert(digits_val(Seq::<char>::empty()) == 0);
            assert(digits_val(z@) == digits_val(z@.drop_last()) * 10 + digit_val(z@.last()));
            assert(digit_val('0') == 0);
            assert(digit_char(0) as int == 48);
            assert('0' as int == 48);
            assert(digit_char(0) == '0');
            assert(digits_of(0) =~= seq!['0']);
            assert(z@ =~= digits_of(0));
        }
        return z;
    }
    let mut rev: Vec<char> = Vec::new();
    let mut m: u64 = n;
    proof {
        assert(rev@.reverse() =~= Seq::<char>::empty());
        assert(digits_val(Seq::<char>::empty()) == 0);
        assert(pow10(0) == 1);
        assert(m as nat * 1 == m as nat);
        assert(digits_of(n as nat) + Seq::<char>::empty() =~= digits_of(n as nat));
    }
    while m > 0
        invariant
            n as nat == m as nat * pow10(rev@.len()) + digits_val(rev@.reverse()),
            all_digits(rev@),
            m == 0 ==> rev@.len() > 0 && rev@.last() != '0',
            m > 0 ==> digits_of(n as nat) == digits_of(m as nat) + rev@.reverse(),
            m == 0 ==> digits_of(n as nat) == rev@.reverse(),
        decreases m,
    {
        let d: u64 = m % 10;
        let c: char = ((48 + d) as u8) as char;
        proof {
            assert(d < 10);
            assert(c as int == 48 + d as int);
            assert(is_digit(c));
            assert(digit_val(c) == d as nat);
            assert(c == digit_char(d as nat));
        }
        let ghost old_rev = rev@;
        let ghost old_m = m;
        rev.push(c);
        m = m / 10;
        proof {
            assert(rev@.reverse() =~= seq![c] + old_rev.reverse());
            lemma_digits_val_prepend(c, old_rev.reverse());
            assert(old_rev.reverse().len() == old_rev.len());
            assert(pow10(rev@.len()) == 10 * pow10(old_rev.len()));
            assert(old_m as nat == 10 * (old_m / 10) as nat + (old_m % 10) as nat) by (
            nonlinear_arith);
            assert(old_m as nat * pow10(old_rev.len()) == (old_m / 10) as nat * (10 * pow10(
                old_rev.len(),
            )) + (old_m % 10) as nat * pow10(old_rev.len())) by (nonlinear_arith)
                requires
                    old_m as nat == 10 * (old_m / 10) as nat + (old_m % 10) as nat,
            ;
            if m == 0 {
                assert(old_m < 10);
                assert(d >= 1);
                assert(c as int > '0' as int);
                assert(c != '0');
                assert(digits_of(old_m as nat) =~= seq![c]);
                assert(digits_of(n as nat) =~= rev@.reverse());
            } else {
                assert(old_m >= 10);
                assert(digits_of(old_m as nat) == digits_of(m as nat).push(c));
                assert(digits_of(m as nat).push(c) + old_rev.reverse() =~= digits_of(m as nat) + (
                seq![c] + old_rev.reverse()));
                assert(digits_of(n as nat) == digits_of(m as nat) + rev@.reverse());
            }
        }
    }
    proof {
        assert(pow10(0) == 1);
        assert(n as nat == digits_val(rev@.reverse())) by {
            assert(m as nat * pow10(rev@.len()) + digits_val(rev@.reverse()) == digits_val(
                rev@.reverse(),
            )) by (nonlinear_arith)
                requires
                    m == 0,
            ;
        }
    }
    let ghost target = rev@.reverse();
    let mut out = String::new();
    let mut i: usize = rev.len();
    while i > 0
        invariant
            i <= rev@.len(),
            target == rev@.reverse(),
            out@ =~= target.subrange(0, rev@.len() - i),
        decreases i,
    {
        i = i - 1;
        let c = rev[i];
        push_char(&mut out, c);
        proof {
            assert(target[rev@.len() - i - 1] == rev@[i as int]);
            assert(out@ =~= target.subrange(0, rev@.len() - i));
        }
    }
    proof {
        assert(out@ =~= target);
        assert(target.len() == rev@.len());
        assert(target[0] == rev@.last());
        assert(forall|j: int| 0 <= j < target.len() ==> target[j] == rev@[target.len() - 1 - j]);
    }
    out
}

/// Reading back a rendered number gives the number: the rendering is
/// injective.
pub proof fn lemma_digits_of_val(n: nat)
    ensures
        digits_val(digits_of(n)) == n,
    decreases n,
{
    if n < 10 {
        assert(digits_of(n) =~= seq![digit_char(n)]);
        assert((seq![digit_char(n)]).drop_last() =~= Seq::<char>::empty());
        assert(digits_val(Seq::<char>::empty()) == 0);
        assert(digit_char(n) as int == 48 + n);
        assert(digit_val(digit_char(n)) == n);
    } else {
        lemma_digits_of_val(n / 10);
        let c = digit_char(n % 10);
        assert(digits_of(n) == digits_of(n / 10).push(c));
        assert(digits_of(n / 10).push(c).drop_last() =~= digits_of(n / 10));
        assert(digits_of(n / 10).push(c).last() == c);
        assert(c as int == 48 + (n % 10));
        assert(digit_val(c) == n % 10);
        assert(digits_val(digits_of(n)) == (n / 10) * 10 + n % 10);
        assert((n / 10) * 10 + n % 10 == n) by (nonlinear_arith);
    }
}

/// ASCII lower-casing of one character.
pub open spec fn lower_char(c: char) -> char {
    if 'A' <= c && c <= 'Z' {
        (((c as u32) + 32) as u8) as char
    } else {
        c
    }
}

/// ASCII lower-casing of a string, character by character.
pub open spec fn lower(s: Seq<char>) -> Seq<char> {
    Seq::new(s.len(), |i: int| lower_char(s[i]))
}

/// ASCII lower-casing of one character.
pub fn lower_char_ex(c: char) -> (r: char)
    ensures
        r == lower_char(c),
{
    if 'A' <= c && c <= 'Z' {
        proof {
            assert((((c as u32) + 32) as u8) as char == lower_char(c));
        }
        (((c as u32) + 32) as u8) as char
    } else {
        c
    }
}

} // verus!
