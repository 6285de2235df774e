//! Small facts about text that the rest of the library leans on.
use vstd::prelude::*;

verus! {

/// The Unicode lowercase form of a string, as `str::to_lowercase` computes it.
pub uninterp spec fn spec_lowercase(s: Seq<char>) -> Seq<char>;

/// Whether every character of `s` is ASCII.
pub open spec fn all_ascii(s: Seq<char>) -> bool {
    forall|i: int| 0 <= i < s.len() ==> (#[trigger] s[i] as u32) < 128
}

/// `s` with its ASCII capitals made small, every other character kept.
pub open spec fn ascii_lowered(s: Seq<char>) -> Seq<char> {
    s.map_values(|c: char| if 'A' <= c <= 'Z' { ((c as u32) + 32) as char } else { c })
}

/// Lowercases text by calling `str::to_lowercase`.
///
/// Trusted: the contract names the result as `spec_lowercase` of the input, a function
/// of the text alone, and states that ASCII text comes back with its capitals `A` to `Z`
/// made `a` to `z` and nothing else changed; what the Unicode case tables map other
/// characters to is not stated.
#[verifier::external_body]
pub(crate) fn to_lowercase(s: &str) -> (res: String)
    ensures
        res@ == spec_lowercase(s@),
        all_ascii(s@) ==> res@ == ascii_lowered(s@),
{
    s.to_lowercase()
}

/// Whether `s` reads exactly `literal`.
pub fn text_is(s: &String, literal: &str) -> (res: bool)
    ensures
        res == (s@ == literal@),
{
    let other = String::from_str(literal);
    *s == other
}

/// Byte-wise lexicographic order: a proper prefix comes first.
pub open spec fn bytes_lt(a: Seq<u8>, b: Seq<u8>) -> bool
    decreases a.len(),
{
    if a.len() == 0 {
        b.len() > 0
    } else if b.len() == 0 {
        false
    } else if a[0] != b[0] {
        a[0] < b[0]
    } else {
        bytes_lt(a.drop_first(), b.drop_first())
    }
}

/// The order of text: that of its UTF-8 bytes, which is the order `str` sorts by.
pub open spec fn text_lt(a: Seq<char>, b: Seq<char>) -> bool {
    bytes_lt(vstd::utf8::encode_utf8(a), vstd::utf8::encode_utf8(b))
}

pub proof fn lemma_bytes_lt_irreflexive(a: Seq<u8>)
    ensures
        !bytes_lt(a, a),
    decreases a.len(),
{
    if a.len() > 0 {
        lemma_bytes_lt_irreflexive(a.drop_first());
    }
}

pub proof fn lemma_bytes_lt_asymmetric(a: Seq<u8>, b: Seq<u8>)
    requires
        bytes_lt(a, b),
    ensures
        !bytes_lt(b, a),
    decreases a.len(),
{
    if a.len() > 0 && b.len() > 0 && a[0] == b[0] {
        lemma_bytes_lt_asymmetric(a.drop_first(), b.drop_first());
    }
}

pub proof fn lemma_bytes_lt_transitive(a: Seq<u8>, b: Seq<u8>, c: Seq<u8>)
    requires
        bytes_lt(a, b),
        bytes_lt(b, c),
    ensures
        bytes_lt(a, c),
    decreases a.len(),
{
    if a.len() > 0 && b.len() > 0 && c.len() > 0 && a[0] == b[0] && b[0] == c[0] {
        lemma_bytes_lt_transitive(a.drop_first(), b.drop_first(), c.drop_first());
    }
}

pub proof fn lemma_bytes_lt_total(a: Seq<u8>, b: Seq<u8>)
    requires
        a != b,
    ensures
        bytes_lt(a, b) || bytes_lt(b, a),
    decreases a.len(),
{
    if a.len() > 0 && b.len() > 0 && a[0] == b[0] {
        if a.drop_first() == b.drop_first() {
            assert(a =~= seq![a[0]] + a.drop_first());
            assert(b =~= seq![b[0]] + b.drop_first());
        }
        lemma_bytes_lt_total(a.drop_first(), b.drop_first());
    } else if a.len() == 0 && b.len() == 0 {
        assert(a =~= b);
    }
}

/// Distinct text has distinct bytes, so the order on text is total.
pub proof fn lemma_text_lt_total(a: Seq<char>, b: Seq<char>)
    requires
        a != b,
    ensures
        text_lt(a, b) || text_lt(b, a),
{
    vstd::utf8::encode_utf8_decode_utf8(a);
    vstd::utf8::encode_utf8_decode_utf8(b);
    lemma_bytes_lt_total(vstd::utf8::encode_utf8(a), vstd::utf8::encode_utf8(b));
}

pub proof fn lemma_text_lt_irreflexive(a: Seq<char>)
    ensures
        !text_lt(a, a),
{
    lemma_bytes_lt_irreflexive(vstd::utf8::encode_utf8(a));
}

pub proof fn lemma_text_lt_asymmetric(a: Seq<char>, b: Seq<char>)
    requires
        text_lt(a, b),
    ensures
        !text_lt(b, a),
{
    lemma_bytes_lt_asymmetric(vstd::utf8::encode_utf8(a), vstd::utf8::encode_utf8(b));
}

pub proof fn lemma_text_lt_transitive(a: Seq<char>, b: Seq<char>, c: Seq<char>)
    requires
        text_lt(a, b),
        text_lt(b, c),
    ensures
        text_lt(a, c),
{
    lemma_bytes_lt_transitive(
        vstd::utf8::encode_utf8(a),
        vstd::utf8::encode_utf8(b),
        vstd::utf8::encode_utf8(c),
    );
}

/// Whether `a` sorts strictly before `b`.
pub fn text_less(a: &str, b: &str) -> (res: bool)
    ensures
        res == text_lt(a@, b@),
{
    let x = a.as_bytes();
    let y = b.as_bytes();
    let mut i: usize = 0;
    assert(x@.skip(0) =~= x@);
    assert(y@.skip(0) =~= y@);
    while i < x.len() && i < y.len()
        invariant
            x@ == vstd::utf8::encode_utf8(a@),
            y@ == vstd::utf8::encode_utf8(b@),
            i <= x.len(),
            i <= y.len(),
            bytes_lt(x@, y@) == bytes_lt(x@.skip(i as int), y@.skip(i as int)),
        decreases x.len() - i,
    {
        assert(x@.skip(i as int)[0] == x@[i as int]);
        assert(y@.skip(i as int)[0] == y@[i as int]);
        if x[i] != y[i] {
            return x[i] < y[i];
        }
        assert(x@.skip(i as int).drop_first() =~= x@.skip(i + 1));
        assert(y@.skip(i as int).drop_first() =~= y@.skip(i + 1));
        i += 1;
    }
    x.len() < y.len()
}

/// Strictly ascending text, so no text appears twice.
pub open spec fn strictly_sorted(s: Seq<String>) -> bool {
    forall|a: int, b: int| 0 <= a < b < s.len() ==> text_lt(s[a]@, s[b]@)
}

/// Whether some entry reads `t`.
pub open spec fn holds_text(s: Seq<String>, t: Seq<char>) -> bool {
    exists|k: int| 0 <= k < s.len() && (#[trigger] s[k])@ == t
}

/// Adds `t` to strictly ascending text, unless it is already there.
pub fn insert_sorted(v: &mut Vec<String>, t: String)
    requires
        strictly_sorted(old(v)@),
    ensures
        strictly_sorted(final(v)@),
        forall|u: Seq<char>| holds_text(final(v)@, u) <==> (holds_text(old(v)@, u) || u == t@),
        final(v).len() <= old(v).len() + 1,
{
    let ghost before = v@;
    let mut p: usize = 0;
    while p < v.len() && text_less(v[p].as_str(), t.as_str())
        invariant
            p <= v.len(),
            v@ == before,
            forall|k: int| 0 <= k < p ==> text_lt((#[trigger] v@[k])@, t@),
        decreases v.len() - p,
    {
        p += 1;
    }
    if p < v.len() && v[p] == t {
        proof {
            assert(v@[p as int]@ == t@);
            assert(holds_text(v@, t@));
        }
        return;
    }
    proof {
        if p < v.len() {
            assert(!text_lt(v@[p as int]@, t@));
            assert(v@[p as int]@ != t@);
            lemma_text_lt_total(v@[p as int]@, t@);
        }
        assert forall|k: int| p <= k < v.len() implies text_lt(t@, (#[trigger] v@[k])@) by {
            if k > p {
                lemma_text_lt_transitive(t@, v@[p as int]@, v@[k]@);
            }
        }
    }
    let ghost tv = t@;
    v.insert(p, t);
    proof {
        assert(v@[p as int]@ == tv);
        assert forall|a: int, b: int| 0 <= a < b < v.len() implies text_lt(v@[a]@, v@[b]@) by {
            if b < p {
            } else if a < p && b == p {
            } else if a < p && b > p {
                assert(v@[b] == before[b - 1]);
                assert(text_lt(tv, before[b - 1]@));
                lemma_text_lt_transitive(v@[a]@, tv, v@[b]@);
            } else if a == p {
                assert(v@[b] == before[b - 1]);
            } else {
                assert(v@[a] == before[a - 1]);
                assert(v@[b] == before[b - 1]);
            }
        }
        assert forall|u: Seq<char>| holds_text(v@, u) <==> (holds_text(before, u) || u == tv) by {
            if holds_text(v@, u) {
                let k = choose|k: int| 0 <= k < v.len() && (#[trigger] v@[k])@ == u;
                if k < p {
                    assert(before[k]@ == u);
                } else if k > p {
                    assert(before[k - 1]@ == u);
                }
            }
            if holds_text(before, u) {
                let k = choose|k: int| 0 <= k < before.len() && (#[trigger] before[k])@ == u;
                if k < p {
                    assert(v@[k]@ == u);
                } else {
                    assert(v@[k + 1]@ == u);
                }
            }
            if u == tv {
                assert(v@[p as int]@ == u);
            }
        }
    }
}


/// Parts joined with a separator between each two.
pub open spec fn joined(parts: Seq<Seq<char>>, sep: Seq<char>) -> Seq<char>
    decreases parts.len(),
{
    if parts.len() == 0 {
        Seq::empty()
    } else if parts.len() == 1 {
        parts[0]
    } else {
        joined(parts.drop_last(), sep) + sep + parts.last()
    }
}

/// Appends `tail` to `s`.
pub(crate) fn push_text(s: &mut String, tail: &str)
    ensures
        final(s)@ == old(s)@ + tail@,
{
    s.append(tail);
}

/// A character's code with ASCII capitals folded to lower case; others unchanged.
pub open spec fn fold_ascii(c: char) -> u32 {
    if 'A' <= c <= 'Z' {
        (c as u32 + 32) as u32
    } else {
        c as u32
    }
}

/// Whether two texts are equal once ASCII capitals are folded to lower case.
pub open spec fn same_ignoring_ascii_case(a: Seq<char>, b: Seq<char>) -> bool {
    a.len() == b.len() && forall|i: int| 0 <= i < a.len() ==> fold_ascii(#[trigger] a[i]) == fold_ascii(b[i])
}

/// Folds one character as `fold_ascii` does.
fn fold_char(c: char) -> (res: u32)
    ensures
        res == fold_ascii(c),
{
    if 'A' <= c && c <= 'Z' {
        (c as u32) + 32
    } else {
        c as u32
    }
}

/// Compares two texts, ignoring ASCII case, as `str::eq_ignore_ascii_case` does.
pub fn eq_ignore_ascii_case(a: &str, b: &str) -> (res: bool)
    ensures
        res == same_ignoring_ascii_case(a@, b@),
{
    let n = a.unicode_len();
    if n != b.unicode_len() {
        return false;
    }
    let mut i: usize = 0;
    while i < n
        invariant
            n == a@.len(),
            n == b@.len(),
            i <= n,
            forall|k: int| 0 <= k < i ==> fold_ascii(#[trigger] a@[k]) == fold_ascii(b@[k]),
        decreases n - i,
    {
        if fold_char(a.get_char(i)) != fold_char(b.get_char(i)) {
            return false;
        }
        i += 1;
    }
    true
}

/// Appends one character by calling `String::push`.
///
/// Trusted: the contract states what the standard library documents, that the text of
/// `s` afterwards is its old text followed by `c`.
#[verifier::external_body]
pub(crate) fn push_char(s: &mut String, c: char)
    ensures
        final(s)@ == old(s)@.push(c),
{
    s.push(c);
}

/// The character of a decimal digit.
pub open spec fn digit_char(d: int) -> char {
    if d == 0 {
        '0'
    } else if d == 1 {
        '1'
    } else if d == 2 {
        '2'
    } else if d == 3 {
        '3'
    } else if d == 4 {
        '4'
    } else if d == 5 {
        '5'
    } else if d == 6 {
        '6'
    } else if d == 7 {
        '7'
    } else if d == 8 {
        '8'
    } else {
        '9'
    }
}

/// A number in decimal, most significant digit first, with no leading zero.
pub open spec fn decimal(n: nat) -> Seq<char>
    decreases n,
{
    if n < 10 {
        seq![digit_char(n as int)]
    } else {
        decimal(n / 10).push(digit_char((n % 10) as int))
    }
}

/// An integer in decimal, with a minus sign when it is negative.
pub open spec fn signed_decimal(x: int) -> Seq<char> {
    if x < 0 {
        seq!['-'] + decimal((-x) as nat)
    } else {
        decimal(x as nat)
    }
}

/// The character of a decimal digit.
fn digit(d: usize) -> (res: char)
    requires
        d < 10,
    ensures
        res == digit_char(d as int),
{
    if d == 0 {
        '0'
    } else if d == 1 {
        '1'
    } else if d == 2 {
        '2'
    } else if d == 3 {
        '3'
    } else if d == 4 {
        '4'
    } else if d == 5 {
        '5'
    } else if d == 6 {
        '6'
    } else if d == 7 {
        '7'
    } else if d == 8 {
        '8'
    } else {
        '9'
    }
}

/// Appends a number in decimal.
pub fn push_decimal(s: &mut String, n: usize)
    ensures
        final(s)@ == old(s)@ + decimal(n as nat),
    decreases n,
{
    if n >= 10 {
        push_decimal(s, n / 10);
    }
    push_char(s, digit(n % 10));
    proof {
        if n < 10 {
            assert(n % 10 == n);
        }
        assert(old(s)@ + decimal(n as nat) =~= if n >= 10 {
            (old(s)@ + decimal((n / 10) as nat)).push(digit_char((n % 10) as int))
        } else {
            old(s)@.push(digit_char((n % 10) as int))
        });
    }
}

/// Appends an integer in decimal, with a minus sign when it is negative.
pub fn push_signed_decimal(s: &mut String, x: i32)
    ensures
        final(s)@ == old(s)@ + signed_decimal(x as int),
{
    if x < 0 {
        push_char(s, '-');
        let magnitude: i64 = -(x as i64);
        let ghost mid = s@;
        push_decimal(s, magnitude as usize);
        proof {
            assert(old(s)@ + signed_decimal(x as int) =~= mid + decimal(magnitude as nat));
        }
    } else {
        push_decimal(s, x as usize);
    }
}

} // verus!

verus! {

/// A character once its ASCII capital, if it is one, is made small.
pub open spec fn lower_char(c: char) -> char {
    if 'A' <= c <= 'Z' { ((c as u32) + 32) as char } else { c }
}

/// Characters with one code are one character.
proof fn lemma_same_code(c: char, d: char)
    requires
        c as u32 == d as u32,
    ensures
        c == d,
{
}

/// A character's lowered form has the folded code.
pub proof fn lemma_lower_char(c: char)
    ensures
        lower_char(c) as u32 == fold_ascii(c),
{
}

/// Text that lowers to lowercase text `x` equals `x` once ASCII case is ignored.
pub proof fn lemma_lowered_from(s: Seq<char>, x: Seq<char>)
    requires
        ascii_lowered(s) == x,
        forall|i: int| 0 <= i < x.len() ==> !('A' <= #[trigger] x[i] <= 'Z'),
    ensures
        same_ignoring_ascii_case(s, x),
{
    assert forall|i: int| 0 <= i < s.len() implies fold_ascii(#[trigger] s[i]) == fold_ascii(x[i]) by {
        lemma_lower_char(s[i]);
        assert(ascii_lowered(s)[i] == lower_char(s[i]));
        assert(x[i] == lower_char(s[i]));
    }
}

/// Text that equals lowercase ASCII text `x` once ASCII case is ignored is ASCII, and
/// lowers to `x` itself.
pub proof fn lemma_lowers_to(s: Seq<char>, x: Seq<char>)
    requires
        same_ignoring_ascii_case(s, x),
        forall|i: int| 0 <= i < x.len() ==> (#[trigger] x[i] as u32) < 128 && !('A' <= x[i] <= 'Z'),
    ensures
        all_ascii(s),
        ascii_lowered(s) == x,
{
    assert forall|i: int| 0 <= i < s.len() implies (#[trigger] s[i] as u32) < 128 by {
        assert(fold_ascii(s[i]) == fold_ascii(x[i]));
    }
    assert forall|i: int| 0 <= i < s.len() implies #[trigger] ascii_lowered(s)[i] == x[i] by {
        lemma_lower_char(s[i]);
        assert(fold_ascii(s[i]) == fold_ascii(x[i]));
        assert(ascii_lowered(s)[i] == lower_char(s[i]));
        let a = lower_char(s[i]);
        let b = x[i];
        assert(a as u32 == b as u32);
        lemma_same_code(a, b);

    }
    assert(ascii_lowered(s) =~= x);
}

} // verus!
