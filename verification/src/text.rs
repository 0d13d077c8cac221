//! The order of strings: lexicographic by the bytes of their UTF-8 encoding,
//! which is the order that `str` has in the standard library.

use crate::ordered::{Order, Ordered};
use vstd::prelude::*;
use vstd::std_specs::iter::IteratorSpec;
use vstd::string::*;
use vstd::utf8::*;

verus! {

/// `a` and `b` agree on their first `k` bytes.
pub open spec fn agree_upto(a: Seq<u8>, b: Seq<u8>, k: int) -> bool {
    &&& 0 <= k <= a.len()
    &&& k <= b.len()
    &&& forall|j: int| 0 <= j < k ==> a[j] == b[j]
}

/// `a` comes strictly before `b`: at the first place where they differ
/// either `a` has ended or `a` holds the smaller byte.
pub open spec fn bytes_lt(a: Seq<u8>, b: Seq<u8>) -> bool {
    exists|k: int| #[trigger]
        agree_upto(a, b, k) && k < b.len() && (k == a.len() || a[k] < b[k])
}

/// The order of strings, as sequences of characters.
pub open spec fn str_lt(a: Seq<char>, b: Seq<char>) -> bool {
    bytes_lt(encode_utf8(a), encode_utf8(b))
}

/// The order of optional strings: an absent one comes before every present one.
pub open spec fn opt_str_lt(a: Option<Seq<char>>, b: Option<Seq<char>>) -> bool {
    match (a, b) {
        (None, None) => false,
        (None, Some(_)) => true,
        (Some(_), None) => false,
        (Some(x), Some(y)) => str_lt(x, y),
    }
}

/// No sequence comes before itself.
pub proof fn lemma_bytes_lt_irreflexive(a: Seq<u8>)
    ensures
        !bytes_lt(a, a),
{
}

/// What comes before a sequence comes before all that the sequence comes
/// before.
pub proof fn lemma_bytes_lt_transitive(a: Seq<u8>, b: Seq<u8>, c: Seq<u8>)
    requires
        bytes_lt(a, b),
        bytes_lt(b, c),
    ensures
        bytes_lt(a, c),
{
    let k1 = choose|k: int| #[trigger]
        agree_upto(a, b, k) && k < b.len() && (k == a.len() || a[k] < b[k]);
    let k2 = choose|k: int| #[trigger]
        agree_upto(b, c, k) && k < c.len() && (k == b.len() || b[k] < c[k]);
    let k = if k1 <= k2 {
        k1
    } else {
        k2
    };
    assert(agree_upto(a, c, k));
}

/// Walks both sequences from `i` on to the first place where they differ.
proof fn lemma_bytes_total_from(a: Seq<u8>, b: Seq<u8>, i: int)
    requires
        agree_upto(a, b, i),
    ensures
        a == b || bytes_lt(a, b) || bytes_lt(b, a),
    decreases a.len() - i,
{
    if i == a.len() {
        if i == b.len() {
            assert(a =~= b);
        } else {
            assert(agree_upto(a, b, i));
        }
    } else if i == b.len() {
        assert(agree_upto(b, a, i));
    } else if a[i] == b[i] {
        assert(agree_upto(a, b, i + 1));
        lemma_bytes_total_from(a, b, i + 1);
    } else if a[i] < b[i] {
        assert(agree_upto(a, b, i));
    } else {
        assert(agree_upto(b, a, i));
    }
}

/// Of two sequences that differ, one comes before the other.
pub proof fn lemma_bytes_lt_total(a: Seq<u8>, b: Seq<u8>)
    ensures
        a == b || bytes_lt(a, b) || bytes_lt(b, a),
{
    assert(agree_upto(a, b, 0));
    lemma_bytes_total_from(a, b, 0);
}

/// Two strings with the same encoding are the same string.
pub proof fn lemma_encoding_injective(a: Seq<char>, b: Seq<char>)
    requires
        encode_utf8(a) == encode_utf8(b),
    ensures
        a == b,
{
    encode_utf8_decode_utf8(a);
    encode_utf8_decode_utf8(b);
}

/// `str_lt` is a strict total order.
pub proof fn lemma_str_lt_order(a: Seq<char>, b: Seq<char>, c: Seq<char>)
    ensures
        !str_lt(a, a),
        str_lt(a, b) && str_lt(b, c) ==> str_lt(a, c),
        a == b || str_lt(a, b) || str_lt(b, a),
        !(str_lt(a, b) && str_lt(b, a)),
{
    lemma_bytes_lt_irreflexive(encode_utf8(a));
    if str_lt(a, b) && str_lt(b, c) {
        lemma_bytes_lt_transitive(encode_utf8(a), encode_utf8(b), encode_utf8(c));
    }
    lemma_bytes_lt_total(encode_utf8(a), encode_utf8(b));
    if encode_utf8(a) == encode_utf8(b) {
        lemma_encoding_injective(a, b);
    }
    if str_lt(a, b) && str_lt(b, a) {
        lemma_bytes_lt_transitive(encode_utf8(a), encode_utf8(b), encode_utf8(a));
    }
}

/// `opt_str_lt` is a strict total order.
pub proof fn lemma_opt_str_lt_order(
    a: Option<Seq<char>>,
    b: Option<Seq<char>>,
    c: Option<Seq<char>>,
)
    ensures
        !opt_str_lt(a, a),
        opt_str_lt(a, b) && opt_str_lt(b, c) ==> opt_str_lt(a, c),
        a == b || opt_str_lt(a, b) || opt_str_lt(b, a),
        !(opt_str_lt(a, b) && opt_str_lt(b, a)),
{
    match (a, b, c) {
        (Some(x), Some(y), Some(z)) => {
            lemma_str_lt_order(x, y, z);
        },
        (Some(x), Some(y), None) => {
            lemma_str_lt_order(x, y, y);
        },
        (Some(x), _, _) => {
            lemma_str_lt_order(x, x, x);
        },
        _ => {},
    }
}

/// Compares two byte slices.
pub fn compare_bytes(a: &[u8], b: &[u8]) -> (o: Order)
    ensures
        match o {
            Order::Before => bytes_lt(a@, b@),
            Order::Same => a@ == b@,
            Order::After => bytes_lt(b@, a@),
        },
{
    let mut i: usize = 0;
    while i < a.len() && i < b.len()
        invariant
            agree_upto(a@, b@, i as int),
        decreases a.len() - i,
    {
        if a[i] < b[i] {
            return Order::Before;
        }
        if a[i] > b[i] {
            assert(agree_upto(b@, a@, i as int));
            return Order::After;
        }
        i += 1;
    }
    if i < b.len() {
        Order::Before
    } else if i < a.len() {
        assert(agree_upto(b@, a@, i as int));
        Order::After
    } else {
        assert(a@ =~= b@);
        Order::Same
    }
}

/// Compares two strings in the order of `str_lt`.
pub fn compare_str(a: &str, b: &str) -> (o: Order)
    ensures
        match o {
            Order::Before => str_lt(a@, b@),
            Order::Same => a@ == b@,
            Order::After => str_lt(b@, a@),
        },
{
    let o = compare_bytes(a.as_bytes(), b.as_bytes());
    proof {
        if o == Order::Same {
            lemma_encoding_injective(a@, b@);
        }
    }
    o
}

/// Whether two strings are the same.
pub fn same_str(a: &str, b: &str) -> (r: bool)
    ensures
        r == (a@ == b@),
{
    proof {
        lemma_str_lt_order(a@, b@, a@);
    }
    match compare_str(a, b) {
        Order::Same => true,
        _ => false,
    }
}

/// Whether `a` comes strictly before `b`.
pub fn str_before(a: &str, b: &str) -> (r: bool)
    ensures
        r == str_lt(a@, b@),
{
    proof {
        lemma_str_lt_order(a@, b@, a@);
    }
    match compare_str(a, b) {
        Order::Before => true,
        _ => false,
    }
}

/// Compares two optional strings in the order of `opt_str_lt`.
pub fn compare_opt_str(a: &Option<String>, b: &Option<String>) -> (o: Order)
    ensures
        match o {
            Order::Before => opt_str_lt(opt_view(*a), opt_view(*b)),
            Order::Same => opt_view(*a) == opt_view(*b),
            Order::After => opt_str_lt(opt_view(*b), opt_view(*a)),
        },
{
    match (a, b) {
        (None, None) => Order::Same,
        (None, Some(_)) => Order::Before,
        (Some(_), None) => Order::After,
        (Some(x), Some(y)) => compare_str(x.as_str(), y.as_str()),
    }
}

/// The characters of an optional string.
pub open spec fn opt_view(s: Option<String>) -> Option<Seq<char>> {
    match s {
        Some(x) => Some(x@),
        None => None,
    }
}

/// A copy of an optional string.
pub fn clone_opt(s: &Option<String>) -> (r: Option<String>)
    ensures
        r == *s,
{
    match s {
        Some(x) => Some(x.clone()),
        None => None,
    }
}

/// A copy of a vector of strings.
pub fn clone_strings(v: &Vec<String>) -> (r: Vec<String>)
    ensures
        r@ == v@,
{
    let mut r: Vec<String> = Vec::new();
    let mut i: usize = 0;
    while i < v.len()
        invariant
            0 <= i <= v.len(),
            r@ == v@.take(i as int),
        decreases v.len() - i,
    {
        r.push(v[i].clone());
        assert(v@.take(i as int).push(v@[i as int]) =~= v@.take(i + 1));
        i += 1;
    }
    assert(v@.take(v.len() as int) =~= v@);
    r
}

/// The characters of each string of a sequence.
pub open spec fn strings(v: Seq<String>) -> Seq<Seq<char>> {
    v.map_values(|s: String| s@)
}

/// White space, as Unicode defines it.
pub open spec fn is_space(c: char) -> bool {
    let n = c as u32;
    ||| 0x09 <= n <= 0x0d
    ||| n == 0x20
    ||| n == 0x85
    ||| n == 0xa0
    ||| n == 0x1680
    ||| 0x2000 <= n <= 0x200a
    ||| n == 0x2028
    ||| n == 0x2029
    ||| n == 0x202f
    ||| n == 0x205f
    ||| n == 0x3000
}

/// `a` is the place of the first character of `s` that is no white space,
/// or the length of `s` where there is none.
pub open spec fn is_text_start(s: Seq<char>, a: int) -> bool {
    &&& 0 <= a <= s.len()
    &&& forall|j: int| 0 <= j < a ==> is_space(#[trigger] s[j])
    &&& a < s.len() ==> !is_space(s[a])
}

/// `b` is the place behind the last character of `s` that is no white
/// space, or 0 where there is none.
pub open spec fn is_text_end(s: Seq<char>, b: int) -> bool {
    &&& 0 <= b <= s.len()
    &&& forall|j: int| b <= j < s.len() ==> is_space(#[trigger] s[j])
    &&& 0 < b ==> !is_space(s[b - 1])
}

/// `s` without the white space at its start and at its end.
pub open spec fn trimmed(s: Seq<char>) -> Seq<char> {
    let a = choose|a: int| is_text_start(s, a);
    let b = choose|b: int| is_text_end(s, b);
    if a < b {
        s.subrange(a, b)
    } else {
        Seq::empty()
    }
}

/// A string has one start and one end of its text.
pub proof fn lemma_text_bounds_unique(s: Seq<char>, a1: int, a2: int, b1: int, b2: int)
    requires
        is_text_start(s, a1),
        is_text_start(s, a2),
        is_text_end(s, b1),
        is_text_end(s, b2),
    ensures
        a1 == a2,
        b1 == b2,
{
    if a1 < a2 {
        assert(is_space(s[a1]));
    } else if a2 < a1 {
        assert(is_space(s[a2]));
    }
    if b1 < b2 {
        assert(is_space(s[b2 - 1]));
    } else if b2 < b1 {
        assert(is_space(s[b1 - 1]));
    }
}

/// The characters of a string.
pub fn chars_of(s: &str) -> (v: Vec<char>)
    ensures
        v@ == s@,
{
    let mut v: Vec<char> = Vec::new();
    for c in it: s.chars()
        invariant
            it.seq() == s@,
            v@ == s@.take(it.index()),
    {
        v.push(c);
        assert(s@.take(it.index()).push(c) =~= s@.take(it.index() + 1));
    }
    assert(s@.take(s@.len() as int) =~= s@);
    v
}

/// Whether a character is white space.
pub fn char_is_space(c: char) -> (r: bool)
    ensures
        r == is_space(c),
{
    let n = c as u32;
    (0x09 <= n && n <= 0x0d) || n == 0x20 || n == 0x85 || n == 0xa0 || n == 0x1680 || (0x2000 <= n
        && n <= 0x200a) || n == 0x2028 || n == 0x2029 || n == 0x202f || n == 0x205f || n == 0x3000
}

/// `s` without the white space at its start and at its end.
pub fn trim(s: &str) -> (t: String)
    ensures
        t@ == trimmed(s@),
{
    let chars = chars_of(s);
    let n = chars.len();
    let mut a: usize = 0;
    while a < n && char_is_space(chars[a])
        invariant
            chars@ == s@,
            n == s@.len(),
            0 <= a <= n,
            forall|j: int| 0 <= j < a ==> is_space(#[trigger] s@[j]),
        decreases n - a,
    {
        a += 1;
    }
    let mut b: usize = n;
    while b > 0 && char_is_space(chars[b - 1])
        invariant
            chars@ == s@,
            n == s@.len(),
            0 <= b <= n,
            forall|j: int| b <= j < n ==> is_space(#[trigger] s@[j]),
        decreases b,
    {
        b -= 1;
    }
    proof {
        assert(is_text_start(s@, a as int));
        assert(is_text_end(s@, b as int));
        lemma_text_bounds_unique(
            s@,
            a as int,
            choose|a: int| is_text_start(s@, a),
            b as int,
            choose|b: int| is_text_end(s@, b),
        );
    }
    if a < b {
        s.substring_char(a, b).to_owned()
    } else {
        String::new()
    }
}

impl Ordered for String {
    type Key = Seq<char>;

    open spec fn key(&self) -> Seq<char> {
        self@
    }

    open spec fn key_lt(a: Seq<char>, b: Seq<char>) -> bool {
        str_lt(a, b)
    }

    proof fn lemma_order(a: Seq<char>, b: Seq<char>, c: Seq<char>) {
        lemma_str_lt_order(a, b, c);
    }

    fn compare(&self, other: &Self) -> (o: Order) {
        compare_str(self.as_str(), other.as_str())
    }
}

} // verus!
