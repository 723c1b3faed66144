//! Text utilities: comparison, ordering and slicing of strings, stated over
//! their views as sequences of characters.

use vstd::prelude::*;
use vstd::string::StringSliceAdditionalSpecFns;
use vstd::utf8::encode_utf8;

verus! {

/// The first `k` items of `a` and `b` agree.
pub open spec fn agree_until<T>(a: Seq<T>, b: Seq<T>, k: int) -> bool {
    &&& 0 <= k <= a.len()
    &&& k <= b.len()
    &&& forall|i: int| 0 <= i < k ==> a[i] == b[i]
}

/// Lexicographic order on byte strings: `a` is a proper prefix of `b`, or
/// the two differ first at a place where `a` holds the smaller byte.
pub open spec fn bytes_lt(a: Seq<u8>, b: Seq<u8>) -> bool {
    exists|k: int| #[trigger]
        agree_until(a, b, k) && (k < b.len() && (k == a.len() || a[k] < b[k]))
}

/// The order of texts: that of their UTF-8 encodings, byte by byte.
pub open spec fn text_lt(a: Seq<char>, b: Seq<char>) -> bool {
    bytes_lt(encode_utf8(a), encode_utf8(b))
}

/// Of two byte strings, at most one stands before the other.
pub proof fn lemma_bytes_lt_asymmetric(a: Seq<u8>, b: Seq<u8>)
    requires
        bytes_lt(a, b),
    ensures
        !bytes_lt(b, a),
{
    if bytes_lt(b, a) {
        let j = choose|k: int| #[trigger]
            agree_until(a, b, k) && (k < b.len() && (k == a.len() || a[k] < b[k]));
        let k = choose|k: int| #[trigger]
            agree_until(b, a, k) && (k < a.len() && (k == b.len() || b[k] < a[k]));
        if j < k {
            assert(a[j] == b[j]);
        } else if k < j {
            assert(a[k] == b[k]);
        }
    }
}

/// What stands before a byte string stands before what that stands
/// before.
pub proof fn lemma_bytes_lt_transitive(a: Seq<u8>, b: Seq<u8>, c: Seq<u8>)
    requires
        bytes_lt(a, b),
        bytes_lt(b, c),
    ensures
        bytes_lt(a, c),
{
    let j = choose|k: int| #[trigger]
        agree_until(a, b, k) && (k < b.len() && (k == a.len() || a[k] < b[k]));
    let k = choose|k: int| #[trigger]
        agree_until(b, c, k) && (k < c.len() && (k == b.len() || b[k] < c[k]));
    let m = if j <= k { j } else { k };
    assert(agree_until(a, c, m));
}

/// Any two byte strings are equal or ordered one way.
pub proof fn lemma_bytes_lt_total(a: Seq<u8>, b: Seq<u8>)
    ensures
        a == b || bytes_lt(a, b) || bytes_lt(b, a),
    decreases a.len(),
{
    lemma_total_from(a, b, 0);
}

/// Byte strings that agree up to a place are equal or ordered one way.
proof fn lemma_total_from(a: Seq<u8>, b: Seq<u8>, k: int)
    requires
        agree_until(a, b, k),
    ensures
        a == b || bytes_lt(a, b) || bytes_lt(b, a),
    decreases a.len() - k,
{
    if k == a.len() {
        if k == b.len() {
            assert(a =~= b);
        } else {
            assert(agree_until(a, b, k));
        }
    } else if k == b.len() {
        assert(agree_until(b, a, k));
    } else if a[k] == b[k] {
        assert(agree_until(a, b, k + 1));
        lemma_total_from(a, b, k + 1);
    } else if a[k] < b[k] {
        assert(agree_until(a, b, k));
    } else {
        assert(agree_until(b, a, k));
    }
}

/// Texts with the same encoding are the same text.
pub proof fn lemma_encoding_injective(a: Seq<char>, b: Seq<char>)
    requires
        encode_utf8(a) == encode_utf8(b),
    ensures
        a == b,
{
    vstd::utf8::encode_utf8_decode_utf8(a);
    vstd::utf8::encode_utf8_decode_utf8(b);
}

/// No text stands before itself.
pub proof fn lemma_text_lt_irreflexive(a: Seq<char>)
    ensures
        !text_lt(a, a),
{
}

/// Of two texts, at most one stands before the other, and then they
/// differ.
pub proof fn lemma_text_lt_asymmetric(a: Seq<char>, b: Seq<char>)
    requires
        text_lt(a, b),
    ensures
        !text_lt(b, a),
        a != b,
{
    lemma_bytes_lt_asymmetric(encode_utf8(a), encode_utf8(b));
}

/// What stands before a text stands before what that text stands before.
pub proof fn lemma_text_lt_transitive(a: Seq<char>, b: Seq<char>, c: Seq<char>)
    requires
        text_lt(a, b),
        text_lt(b, c),
    ensures
        text_lt(a, c),
{
    lemma_bytes_lt_transitive(encode_utf8(a), encode_utf8(b), encode_utf8(c));
}

/// Any two texts are equal or ordered one way.
pub proof fn lemma_text_lt_total(a: Seq<char>, b: Seq<char>)
    ensures
        a == b || text_lt(a, b) || text_lt(b, a),
{
    lemma_bytes_lt_total(encode_utf8(a), encode_utf8(b));
    if encode_utf8(a) == encode_utf8(b) {
        lemma_encoding_injective(a, b);
    }
}

/// Whether two texts are the same.
pub fn str_eq(a: &str, b: &str) -> (r: bool)
    ensures
        r == (a@ == b@),
{
    let x = a.as_bytes();
    let y = b.as_bytes();
    if x.len() != y.len() {
        return false;
    }
    let mut i: usize = 0;
    while i < x.len()
        invariant
            x@ == a.spec_bytes(),
            y@ == b.spec_bytes(),
            x@.len() == y@.len(),
            agree_until(x@, y@, i as int),
        decreases x.len() - i,
    {
        if x[i] != y[i] {
            return false;
        }
        i += 1;
    }
    proof {
        assert(x@ =~= y@);
        lemma_encoding_injective(a@, b@);
    }
    true
}

/// Whether `a` comes strictly before `b` in the order of texts.
pub fn str_lt(a: &str, b: &str) -> (r: bool)
    ensures
        r == text_lt(a@, b@),
{
    let x = a.as_bytes();
    let y = b.as_bytes();
    let mut i: usize = 0;
    while i < x.len() && i < y.len()
        invariant
            x@ == a.spec_bytes(),
            y@ == b.spec_bytes(),
            agree_until(x@, y@, i as int),
        decreases x.len() - i,
    {
        if x[i] != y[i] {
            let less = x[i] < y[i];
            proof {
                if less {
                    assert(agree_until(x@, y@, i as int));
                } else {
                    assert(agree_until(y@, x@, i as int));
                    lemma_bytes_lt_asymmetric(y@, x@);
                }
            }
            return less;
        }
        i += 1;
    }
    let less = i < y.len();
    proof {
        if less {
            assert(agree_until(x@, y@, i as int));
        } else {
            if x@.len() == y@.len() {
                assert(x@ =~= y@);
            } else {
                assert(agree_until(y@, x@, i as int));
                lemma_bytes_lt_asymmetric(y@, x@);
            }
        }
    }
    less
}

/// The characters of a text, in order.
pub fn to_chars(s: &str) -> (v: Vec<char>)
    ensures
        v@ == s@,
{
    let mut v: Vec<char> = Vec::new();
    for c in it: s.chars()
        invariant
            v@ == it.seq().take(it.index() as int),
            it.seq() == s@,
    {
        v.push(c);
    }
    v
}

/// `String::from_iter` over characters: the text made of exactly the given
/// characters, in order.
#[verifier::external_body]
fn chars_to_string(v: &Vec<char>) -> (s: String)
    ensures
        s@ == v@,
{
    v.iter().collect()
}

/// The text made of the characters `v[from..to]`.
pub fn sub_string(v: &Vec<char>, from: usize, to: usize) -> (s: String)
    requires
        from <= to <= v.len(),
    ensures
        s@ == v@.subrange(from as int, to as int),
{
    let mut part: Vec<char> = Vec::new();
    let mut i: usize = from;
    while i < to
        invariant
            from <= i <= to <= v.len(),
            part@ == v@.subrange(from as int, i as int),
        decreases to - i,
    {
        part.push(v[i]);
        i += 1;
    }
    chars_to_string(&part)
}

/// The text made of the given characters.
pub fn from_chars(v: &Vec<char>) -> (s: String)
    ensures
        s@ == v@,
{
    chars_to_string(v)
}

/// `a` followed by `b`.
pub fn join(a: &str, b: &str) -> (s: String)
    ensures
        s@ == a@ + b@,
{
    let mut s = a.to_owned();
    s.append(b);
    s
}

/// A copy of the text.
pub fn copy(a: &str) -> (s: String)
    ensures
        s@ == a@,
{
    a.to_owned()
}

/// Whether `s` begins with the characters of `prefix`.
pub fn starts_with(s: &str, prefix: &str) -> (r: bool)
    ensures
        r == prefix@.is_prefix_of(s@),
{
    let x = to_chars(s);
    let p = to_chars(prefix);
    if p.len() > x.len() {
        return false;
    }
    let mut i: usize = 0;
    while i < p.len()
        invariant
            x@ == s@,
            p@ == prefix@,
            p.len() <= x.len(),
            i <= p.len(),
            forall|k: int| 0 <= k < i ==> p@[k] == x@[k],
        decreases p.len() - i,
    {
        if p[i] != x[i] {
            assert(x@.subrange(0, p@.len() as int)[i as int] == x@[i as int]);
            return false;
        }
        i += 1;
    }
    proof {
        assert(p@ =~= x@.subrange(0, p@.len() as int));
    }
    true
}

/// Whether `s` ends with the characters of `suffix`.
pub fn ends_with(s: &str, suffix: &str) -> (r: bool)
    ensures
        r == suffix@.is_suffix_of(s@),
{
    let x = to_chars(s);
    let p = to_chars(suffix);
    if p.len() > x.len() {
        return false;
    }
    let shift = x.len() - p.len();
    let mut i: usize = 0;
    while i < p.len()
        invariant
            x@ == s@,
            p@ == suffix@,
            p.len() <= x.len(),
            shift == x.len() - p.len(),
            i <= p.len(),
            forall|k: int| 0 <= k < i ==> p@[k] == x@[shift + k],
        decreases p.len() - i,
    {
        if p[i] != x[shift + i] {
            assert(x@.subrange(shift as int, x@.len() as int)[i as int] == x@[shift + i]);
            return false;
        }
        i += 1;
    }
    proof {
        assert(p@ =~= x@.subrange(shift as int, x@.len() as int));
    }
    true
}

/// What is left of `s` once `prefix` is taken from its front, if it begins
/// with `prefix`.
pub fn strip_prefix(s: &str, prefix: &str) -> (r: Option<String>)
    ensures
        match r {
            Some(rest) => s@ == prefix@ + rest@ && prefix@.is_prefix_of(s@) && rest@
                == s@.subrange(prefix@.len() as int, s@.len() as int),
            None => !prefix@.is_prefix_of(s@),
        },
{
    if starts_with(s, prefix) {
        let x = to_chars(s);
        let n = prefix.unicode_len();
        let rest = sub_string(&x, n, x.len());
        proof {
            assert(s@ =~= prefix@ + rest@);
        }
        Some(rest)
    } else {
        None
    }
}

/// What is left of `s` once `suffix` is taken from its end, if it ends
/// with `suffix`.
pub fn strip_suffix(s: &str, suffix: &str) -> (r: Option<String>)
    ensures
        match r {
            Some(rest) => s@ == rest@ + suffix@ && suffix@.is_suffix_of(s@) && rest@
                == s@.subrange(0, s@.len() - suffix@.len()),
            None => !suffix@.is_suffix_of(s@),
        },
{
    if ends_with(s, suffix) {
        let x = to_chars(s);
        let n = suffix.unicode_len();
        let rest = sub_string(&x, 0, x.len() - n);
        proof {
            assert(s@ =~= rest@ + suffix@);
        }
        Some(rest)
    } else {
        None
    }
}

/// The place of the first `c` in `s`, or the length of `s` if it holds none.
pub open spec fn first_index_of(s: Seq<char>, c: char) -> int
    decreases s.len(),
{
    if s.len() == 0 || s[0] == c {
        0
    } else {
        1 + first_index_of(s.drop_first(), c)
    }
}

/// Where `first_index_of` points: behind characters other than `c`, at the
/// first `c`.
pub proof fn lemma_first_index_of(s: Seq<char>, c: char)
    ensures
        0 <= first_index_of(s, c) <= s.len(),
        forall|i: int| 0 <= i < first_index_of(s, c) ==> s[i] != c,
        first_index_of(s, c) < s.len() ==> s[first_index_of(s, c)] == c,
    decreases s.len(),
{
    if s.len() == 0 || s[0] == c {
    } else {
        let t = s.drop_first();
        lemma_first_index_of(t, c);
        assert forall|i: int| 0 <= i < first_index_of(s, c) implies s[i] != c by {
            if i > 0 {
                assert(t[i - 1] == s[i]);
            }
        }
    }
}

/// An index `k` before which no `c` stands, and at which `s` ends or holds
/// `c`, is the place of the first `c`.
pub proof fn lemma_first_index_is(s: Seq<char>, c: char, k: int)
    requires
        0 <= k <= s.len(),
        forall|i: int| 0 <= i < k ==> s[i] != c,
        k < s.len() ==> s[k] == c,
    ensures
        first_index_of(s, c) == k,
{
    lemma_first_index_of(s, c);
    let f = first_index_of(s, c);
    if f < k {
        assert(s[f] != c);
    } else if k < f {
        assert(s[k] != c);
    }
}

/// Splits `s` at its first `c`: what stands before it, and what stands
/// after. `None` when `s` holds no `c`.
pub fn split_once(s: &str, c: char) -> (r: Option<(String, String)>)
    ensures
        match r {
            Some((head, tail)) => {
                &&& first_index_of(s@, c) < s@.len()
                &&& head@ == s@.subrange(0, first_index_of(s@, c))
                &&& tail@ == s@.subrange(first_index_of(s@, c) + 1, s@.len() as int)
            },
            None => first_index_of(s@, c) == s@.len(),
        },
{
    let x = to_chars(s);
    let mut i: usize = 0;
    while i < x.len()
        invariant
            x@ == s@,
            i <= x.len(),
            forall|k: int| 0 <= k < i ==> x@[k] != c,
        decreases x.len() - i,
    {
        if x[i] == c {
            proof {
                lemma_first_index_is(x@, c, i as int);
            }
            let head = sub_string(&x, 0, i);
            let tail = sub_string(&x, i + 1, x.len());
            return Some((head, tail));
        }
        i += 1;
    }
    proof {
        lemma_first_index_is(x@, c, i as int);
    }
    None
}

/// A character with the Unicode property `White_Space`.
pub open spec fn is_space(c: char) -> bool {
    let n = c as u32;
    ||| 0x09 <= n <= 0x0D
    ||| n == 0x20
    ||| n == 0x85
    ||| n == 0xA0
    ||| n == 0x1680
    ||| 0x2000 <= n <= 0x200A
    ||| n == 0x2028
    ||| n == 0x2029
    ||| n == 0x202F
    ||| n == 0x205F
    ||| n == 0x3000
}

/// A character of the Unicode general category `Cc`.
pub open spec fn is_control(c: char) -> bool {
    let n = c as u32;
    n <= 0x1F || 0x7F <= n <= 0x9F
}

/// Whether the character has the Unicode property `White_Space`.
pub fn char_is_space(c: char) -> (r: bool)
    ensures
        r == is_space(c),
{
    let n: u32 = c as u32;
    (0x09 <= n && n <= 0x0D) || n == 0x20 || n == 0x85 || n == 0xA0 || n == 0x1680 || (0x2000 <= n
        && n <= 0x200A) || n == 0x2028 || n == 0x2029 || n == 0x202F || n == 0x205F || n == 0x3000
}

/// Whether the character is of the Unicode general category `Cc`.
pub fn char_is_control(c: char) -> (r: bool)
    ensures
        r == is_control(c),
{
    let n: u32 = c as u32;
    n <= 0x1F || (0x7F <= n && n <= 0x9F)
}

/// The first place at or after `i` that holds no white space (the length
/// of `s` if there is none).
pub open spec fn skip_spaces(s: Seq<char>, i: int) -> int
    decreases s.len() - i,
{
    if 0 <= i < s.len() && is_space(s[i]) {
        skip_spaces(s, i + 1)
    } else {
        i
    }
}

/// The end of `s[lo..j]` once its trailing white space is dropped.
pub open spec fn drop_spaces(s: Seq<char>, lo: int, j: int) -> int
    decreases j,
{
    if 0 <= lo < j <= s.len() && is_space(s[j - 1]) {
        drop_spaces(s, lo, j - 1)
    } else {
        j
    }
}

/// `s` without its leading and trailing white space.
pub open spec fn trimmed(s: Seq<char>) -> Seq<char> {
    let i = skip_spaces(s, 0);
    let j = drop_spaces(s, i, s.len() as int);
    s.subrange(i, j)
}

/// Skipping white space stays within the text.
pub proof fn lemma_skip_spaces(s: Seq<char>, i: int)
    requires
        0 <= i <= s.len(),
    ensures
        i <= skip_spaces(s, i) <= s.len(),
    decreases s.len() - i,
{
    if i < s.len() && is_space(s[i]) {
        lemma_skip_spaces(s, i + 1);
    }
}

/// Dropping trailing white space stays within the stretch.
pub proof fn lemma_drop_spaces(s: Seq<char>, lo: int, j: int)
    requires
        0 <= lo <= j <= s.len(),
    ensures
        lo <= drop_spaces(s, lo, j) <= j,
    decreases j,
{
    if lo < j && is_space(s[j - 1]) {
        lemma_drop_spaces(s, lo, j - 1);
    }
}

/// `s` without its leading and trailing white space.
pub fn trim(s: &str) -> (r: String)
    ensures
        r@ == trimmed(s@),
{
    let x = to_chars(s);
    let mut i: usize = 0;
    while i < x.len() && char_is_space(x[i])
        invariant
            i <= x.len(),
            skip_spaces(x@, 0) == skip_spaces(x@, i as int),
        decreases x.len() - i,
    {
        i += 1;
    }
    let mut j: usize = x.len();
    while i < j && char_is_space(x[j - 1])
        invariant
            i <= j <= x.len(),
            drop_spaces(x@, i as int, x@.len() as int) == drop_spaces(x@, i as int, j as int),
        decreases j,
    {
        j -= 1;
    }
    sub_string(&x, i, j)
}

/// Whether `s` holds nothing but white space.
pub fn is_blank(s: &str) -> (r: bool)
    ensures
        r == (trimmed(s@).len() == 0),
{
    let t = trim(s);
    t.unicode_len() == 0
}

/// Every item stands strictly before each later one in the order of texts.
pub open spec fn strictly_sorted(s: Seq<Seq<char>>) -> bool {
    forall|i: int, j: int| 0 <= i < j < s.len() ==> text_lt(#[trigger] s[i], #[trigger] s[j])
}

/// How many leading items of `s` stand strictly before `x`.
pub open spec fn rank(s: Seq<Seq<char>>, x: Seq<char>) -> int
    decreases s.len(),
{
    if s.len() == 0 || !text_lt(s[0], x) {
        0
    } else {
        1 + rank(s.drop_first(), x)
    }
}

/// Where `rank` points: behind the texts that stand before `x`, at a text
/// that does not.
pub proof fn lemma_rank(s: Seq<Seq<char>>, x: Seq<char>)
    ensures
        0 <= rank(s, x) <= s.len(),
        forall|i: int| 0 <= i < rank(s, x) ==> text_lt(#[trigger] s[i], x),
        rank(s, x) < s.len() ==> !text_lt(s[rank(s, x)], x),
    decreases s.len(),
{
    if s.len() == 0 || !text_lt(s[0], x) {
    } else {
        let t = s.drop_first();
        lemma_rank(t, x);
        assert forall|i: int| 0 <= i < rank(s, x) implies text_lt(#[trigger] s[i], x) by {
            if i > 0 {
                assert(t[i - 1] == s[i]);
            }
        }
    }
}

/// A place behind texts that stand before `x`, at which the sequence ends
/// or a text does not stand before `x`, is where `rank` points.
pub proof fn lemma_rank_is(s: Seq<Seq<char>>, x: Seq<char>, k: int)
    requires
        0 <= k <= s.len(),
        forall|i: int| 0 <= i < k ==> text_lt(#[trigger] s[i], x),
        k < s.len() ==> !text_lt(s[k], x),
    ensures
        rank(s, x) == k,
{
    lemma_rank(s, x);
    let r = rank(s, x);
    if r < k {
        assert(text_lt(s[r], x));
    } else if k < r {
        assert(text_lt(s[k], x));
    }
}

/// In a sorted sequence, `x` occurs at its rank or nowhere.
pub proof fn lemma_rank_sorted(s: Seq<Seq<char>>, x: Seq<char>)
    requires
        strictly_sorted(s),
    ensures
        forall|i: int| 0 <= i < s.len() && #[trigger] s[i] == x ==> i == rank(s, x),
        forall|i: int|
            rank(s, x) <= i < s.len() && #[trigger] s[i] != x ==> text_lt(x, s[i]),
{
    lemma_rank(s, x);
    let r = rank(s, x);
    assert forall|i: int| 0 <= i < s.len() && #[trigger] s[i] == x implies i == r by {
        if i < r {
            lemma_text_lt_irreflexive(x);
        } else if r < i {
            assert(text_lt(s[r], s[i]));
        }
    }
    assert forall|i: int| r <= i < s.len() && #[trigger] s[i] != x implies text_lt(x, s[i]) by {
        lemma_text_lt_total(x, s[r]);
        if r < i {
            assert(text_lt(s[r], s[i]));
            if s[r] != x {
                lemma_text_lt_transitive(x, s[r], s[i]);
            }
        }
    }
}

/// The decimal digit for a number below ten.
pub open spec fn digit(d: nat) -> char {
    (('0' as u8) + d) as char
}

/// Whether `c` is one of the digits `0` to `9`.
pub open spec fn is_digit(c: char) -> bool {
    '0' <= c <= '9'
}

/// A natural number in decimal notation, without leading zeros.
pub open spec fn decimal(n: nat) -> Seq<char>
    decreases n,
{
    if n < 10 {
        seq![digit(n)]
    } else {
        decimal(n / 10).push(digit(n % 10))
    }
}

/// The number that a sequence of digits denotes.
pub open spec fn decimal_value(s: Seq<char>) -> nat
    decreases s.len(),
{
    if s.len() == 0 {
        0
    } else {
        decimal_value(s.drop_last()) * 10 + ((s.last() as u8) - ('0' as u8)) as nat
    }
}

/// Ten to the power `k`.
pub open spec fn power_of_ten(k: nat) -> nat
    decreases k,
{
    if k == 0 {
        1
    } else {
        10 * power_of_ten((k - 1) as nat)
    }
}

/// Decimal notation is made of digits, has as many of them as the size of
/// the number asks for, and denotes the number.
pub proof fn lemma_decimal(n: nat, k: nat)
    requires
        k >= 1,
        n < power_of_ten(k),
    ensures
        1 <= decimal(n).len() <= k,
        forall|i: int| 0 <= i < decimal(n).len() ==> is_digit(#[trigger] decimal(n)[i]),
        decimal_value(decimal(n)) == n,
    decreases n,
{
    if n < 10 {
        assert(decimal(n).drop_last() =~= Seq::<char>::empty());
        assert(decimal_value(decimal(n).drop_last()) == 0);
    } else {
        assert(k >= 2) by {
            if k == 1 {
                assert(power_of_ten(1) == 10 * power_of_ten(0));
            }
        }
        lemma_decimal(n / 10, (k - 1) as nat);
        assert(decimal(n).drop_last() =~= decimal(n / 10));
    }
}

/// Writes `n` in decimal notation behind what `out` holds.
pub fn push_decimal(n: u128, out: &mut Vec<char>)
    ensures
        final(out)@ == old(out)@ + decimal(n as nat),
    decreases n,
{
    if n >= 10 {
        push_decimal(n / 10, out);
    }
    let d: u8 = (n % 10) as u8;
    out.push((48u8 + d) as char);
    proof {
        if n >= 10 {
            assert(out@ =~= old(out)@ + decimal(n as nat));
        } else {
            assert(out@ =~= old(out)@ + decimal(n as nat));
        }
    }
}

} // verus!
