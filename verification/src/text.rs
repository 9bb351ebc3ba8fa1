//! Text helpers shared by the rest of the crate: comparison and search on
//! character sequences, decimal rendering, and the ordering of names.

use vstd::prelude::*;
use vstd::utf8::encode_utf8;

verus! {

/// `needle` occurs in `hay` starting at position `at`.
pub open spec fn occurs_at(hay: Seq<char>, needle: Seq<char>, at: int) -> bool {
    &&& 0 <= at
    &&& at + needle.len() <= hay.len()
    &&& hay.subrange(at, at + needle.len()) == needle
}

/// `needle` occurs somewhere in `hay`.
pub open spec fn text_contains(hay: Seq<char>, needle: Seq<char>) -> bool {
    exists|at: int| occurs_at(hay, needle, at)
}

/// `hay` begins with `needle`.
pub open spec fn text_starts_with(hay: Seq<char>, needle: Seq<char>) -> bool {
    occurs_at(hay, needle, 0)
}

/// `hay` ends with `needle`.
pub open spec fn text_ends_with(hay: Seq<char>, needle: Seq<char>) -> bool {
    occurs_at(hay, needle, hay.len() - needle.len())
}

/// Position `i` holds the first occurrence of `name` in `names`.
pub open spec fn is_first_position(names: Seq<Seq<char>>, name: Seq<char>, i: int) -> bool {
    &&& 0 <= i < names.len()
    &&& names[i] == name
    &&& forall|j: int| 0 <= j < i ==> names[j] != name
}

/// The position of the first occurrence of `name` in `names`.
pub open spec fn first_position(names: Seq<Seq<char>>, name: Seq<char>) -> int {
    choose|i: int| is_first_position(names, name, i)
}

/// A name that occurs has a first position.
pub proof fn lemma_first_position(names: Seq<Seq<char>>, name: Seq<char>)
    requires
        names.contains(name),
    ensures
        is_first_position(names, name, first_position(names, name)),
{
    let k = choose|k: int| 0 <= k < names.len() && names[k] == name;
    lemma_first_position_before(names, name, names.len() as int);
}

proof fn lemma_first_position_before(names: Seq<Seq<char>>, name: Seq<char>, upto: int)
    requires
        0 <= upto <= names.len(),
        exists|k: int| 0 <= k < upto && names[k] == name,
    ensures
        exists|i: int| is_first_position(names, name, i),
    decreases upto,
{
    if exists|k: int| 0 <= k < upto - 1 && names[k] == name {
        lemma_first_position_before(names, name, upto - 1);
    } else {
        assert(is_first_position(names, name, upto - 1));
    }
}

/// Position `i` holds the last occurrence of `name` in `names`.
pub open spec fn is_last_position(names: Seq<Seq<char>>, name: Seq<char>, i: int) -> bool {
    &&& 0 <= i < names.len()
    &&& names[i] == name
    &&& forall|j: int| i < j < names.len() ==> names[j] != name
}

/// The position of the last occurrence of `name` in `names`.
pub open spec fn last_position(names: Seq<Seq<char>>, name: Seq<char>) -> int {
    choose|i: int| is_last_position(names, name, i)
}

/// The decimal digit for `d`, where `d < 10`.
pub open spec fn digit_char(d: nat) -> char {
    if d == 0 {
        '0'
    } else if d == 1 {
        '1'
    } else if d == 2 {
        '2'
    } else if d == 3 {
        '3'
    } else if d == 4 {
        '4'
    } else if d == 5 {
        '5'
    } else if d == 6 {
        '6'
    } else if d == 7 {
        '7'
    } else if d == 8 {
        '8'
    } else {
        '9'
    }
}

/// The decimal numeral of `n`, without sign or leading zeros.
pub open spec fn decimal_text(n: nat) -> Seq<char>
    decreases n,
{
    if n < 10 {
        seq![digit_char(n)]
    } else {
        decimal_text(n / 10).push(digit_char(n % 10))
    }
}

/// Strict lexicographic order on two byte strings of the same length.
pub open spec fn bytes_less(a: Seq<u8>, b: Seq<u8>) -> bool {
    exists|k: int| first_difference(a, b, k) && a[k] < b[k]
}

/// `a` and `b` agree before position `k` and differ at it.
pub open spec fn first_difference(a: Seq<u8>, b: Seq<u8>, k: int) -> bool {
    &&& 0 <= k < a.len()
    &&& k < b.len()
    &&& a[k] != b[k]
    &&& forall|j: int| 0 <= j < k ==> a[j] == b[j]
}

/// The order in which candidate names are preferred: a name of fewer bytes
/// comes first, and among names of the same length the one that is smaller
/// byte by byte.
pub open spec fn name_precedes(a: Seq<char>, b: Seq<char>) -> bool {
    let x = encode_utf8(a);
    let y = encode_utf8(b);
    x.len() < y.len() || (x.len() == y.len() && bytes_less(x, y))
}

/// Two byte strings have at most one first difference.
pub proof fn lemma_first_difference_unique(a: Seq<u8>, b: Seq<u8>, k1: int, k2: int)
    requires
        first_difference(a, b, k1),
        first_difference(a, b, k2),
    ensures
        k1 == k2,
{
    if k1 < k2 {
        assert(a[k1] == b[k1]);
    } else if k2 < k1 {
        assert(a[k2] == b[k2]);
    }
}

/// `bytes_less` is transitive.
pub proof fn lemma_bytes_less_transitive(a: Seq<u8>, b: Seq<u8>, c: Seq<u8>)
    requires
        bytes_less(a, b),
        bytes_less(b, c),
    ensures
        bytes_less(a, c),
{
    let k1 = choose|k: int| first_difference(a, b, k) && a[k] < b[k];
    let k2 = choose|k: int| first_difference(b, c, k) && b[k] < c[k];
    let k = if k1 <= k2 { k1 } else { k2 };
    assert(first_difference(a, c, k) && a[k] < c[k]);
}

/// Of two byte strings of one length, either one is less or they are equal.
pub proof fn lemma_bytes_trichotomy(a: Seq<u8>, b: Seq<u8>)
    requires
        a.len() == b.len(),
    ensures
        bytes_less(a, b) || bytes_less(b, a) || a == b,
{
    if a != b {
        assert(!(a =~= b));
        lemma_least_difference(a, b, a.len() as int);
        let k = choose|k: int| first_difference(a, b, k);
        if a[k] < b[k] {
        } else {
            assert(first_difference(b, a, k) && b[k] < a[k]);
        }
    }
}

proof fn lemma_least_difference(a: Seq<u8>, b: Seq<u8>, upto: int)
    requires
        a.len() == b.len(),
        0 <= upto <= a.len(),
        exists|i: int| 0 <= i < upto && a[i] != b[i],
    ensures
        exists|k: int| first_difference(a, b, k),
    decreases upto,
{
    if exists|i: int| 0 <= i < upto - 1 && a[i] != b[i] {
        lemma_least_difference(a, b, upto - 1);
    } else {
        assert(first_difference(a, b, upto - 1));
    }
}

/// `name_precedes` is transitive.
pub proof fn lemma_name_precedes_transitive(a: Seq<char>, b: Seq<char>, c: Seq<char>)
    requires
        name_precedes(a, b),
        name_precedes(b, c),
    ensures
        name_precedes(a, c),
{
    let x = encode_utf8(a);
    let y = encode_utf8(b);
    let z = encode_utf8(c);
    if x.len() == y.len() && y.len() == z.len() {
        lemma_bytes_less_transitive(x, y, z);
    }
}

/// No name precedes itself.
pub proof fn lemma_name_precedes_irreflexive(a: Seq<char>)
    ensures
        !name_precedes(a, a),
{
}

/// The characters of `s`, in order.
pub fn chars_of(s: &str) -> (out: Vec<char>)
    ensures
        out@ == s@,
{
    let mut out: Vec<char> = Vec::new();
    for c in it: s.chars()
        invariant
            out@ == it.seq().take(it.index() as int),
            it.seq() == s@,
    {
        out.push(c);
    }
    out
}

/// Whether two texts hold the same characters.
pub fn same_text(a: &str, b: &str) -> (r: bool)
    ensures
        r == (a@ == b@),
{
    let x = chars_of(a);
    let y = chars_of(b);
    if x.len() != y.len() {
        return false;
    }
    assert(x@.subrange(0, y@.len() as int) =~= x@);
    starts_at(&x, &y, 0)
}

/// Whether `needle` occurs in `hay` at position `at`.
fn starts_at(hay: &Vec<char>, needle: &Vec<char>, at: usize) -> (r: bool)
    ensures
        r == occurs_at(hay@, needle@, at as int),
{
    if needle.len() > hay.len() || at > hay.len() - needle.len() {
        return false;
    }
    let mut i: usize = 0;
    while i < needle.len()
        invariant
            at + needle.len() <= hay.len(),
            i <= needle.len(),
            forall|k: int| 0 <= k < i ==> hay@[at + k] == needle@[k],
        decreases needle.len() - i,
    {
        if hay[at + i] != needle[i] {
            assert(hay@.subrange(at as int, at + needle.len())[i as int] != needle@[i as int]);
            return false;
        }
        i += 1;
    }
    assert(hay@.subrange(at as int, at + needle.len()) =~= needle@);
    true
}

/// Whether `needle` occurs somewhere in `hay`.
pub fn contains_text(hay: &str, needle: &str) -> (r: bool)
    ensures
        r == text_contains(hay@, needle@),
{
    let h = chars_of(hay);
    let n = chars_of(needle);
    if n.len() > h.len() {
        return false;
    }
    let last: usize = h.len() - n.len();
    let mut at: usize = 0;
    while at < last
        invariant
            h@ == hay@,
            n@ == needle@,
            last == h.len() - n.len(),
            at <= last,
            forall|k: int| 0 <= k < at ==> !occurs_at(h@, n@, k),
        decreases last - at,
    {
        if starts_at(&h, &n, at) {
            return true;
        }
        at += 1;
    }
    starts_at(&h, &n, last)
}

/// Whether `hay` begins with `needle`.
pub fn starts_with_text(hay: &str, needle: &str) -> (r: bool)
    ensures
        r == text_starts_with(hay@, needle@),
{
    let h = chars_of(hay);
    let n = chars_of(needle);
    starts_at(&h, &n, 0)
}

/// Whether `hay` ends with `needle`.
pub fn ends_with_text(hay: &str, needle: &str) -> (r: bool)
    ensures
        r == text_ends_with(hay@, needle@),
{
    let h = chars_of(hay);
    let n = chars_of(needle);
    if n.len() > h.len() {
        return false;
    }
    starts_at(&h, &n, h.len() - n.len())
}

/// The numeral for one decimal digit.
fn digit_text(d: u64) -> (r: &'static str)
    requires
        d < 10,
    ensures
        r@ == seq![digit_char(d as nat)],
{
    proof {
        reveal_strlit("0");
        reveal_strlit("1");
        reveal_strlit("2");
        reveal_strlit("3");
        reveal_strlit("4");
        reveal_strlit("5");
        reveal_strlit("6");
        reveal_strlit("7");
        reveal_strlit("8");
        reveal_strlit("9");
    }
    let r = if d == 0 {
        "0"
    } else if d == 1 {
        "1"
    } else if d == 2 {
        "2"
    } else if d == 3 {
        "3"
    } else if d == 4 {
        "4"
    } else if d == 5 {
        "5"
    } else if d == 6 {
        "6"
    } else if d == 7 {
        "7"
    } else if d == 8 {
        "8"
    } else {
        "9"
    };
    assert(r@ =~= seq![digit_char(d as nat)]);
    r
}

/// The decimal numeral of `n`.
pub fn decimal(n: u64) -> (r: String)
    ensures
        r@ == decimal_text(n as nat),
    decreases n,
{
    if n < 10 {
        String::from_str(digit_text(n))
    } else {
        let mut r = decimal(n / 10);
        r.append(digit_text(n % 10));
        assert(r@ =~= decimal_text(n as nat));
        r
    }
}

/// Whether `a` is preferred to `b` as a name: shorter first, then byte order.
pub fn precedes(a: &str, b: &str) -> (r: bool)
    ensures
        r == name_precedes(a@, b@),
{
    let x = a.as_bytes();
    let y = b.as_bytes();
    if x.len() != y.len() {
        return x.len() < y.len();
    }
    let mut i: usize = 0;
    while i < x.len()
        invariant
            x@ == encode_utf8(a@),
            y@ == encode_utf8(b@),
            x.len() == y.len(),
            i <= x.len(),
            forall|j: int| 0 <= j < i ==> x@[j] == y@[j],
        decreases x.len() - i,
    {
        if x[i] != y[i] {
            if x[i] < y[i] {
                assert(first_difference(x@, y@, i as int));
                return true;
            } else {
                assert forall|k: int| !(first_difference(x@, y@, k) && x@[k] < y@[k]) by {
                    if first_difference(x@, y@, k) {
                        assert(first_difference(x@, y@, i as int));
                        lemma_first_difference_unique(x@, y@, k, i as int);
                    }
                }
                return false;
            }
        }
        i += 1;
    }
    false
}

/// Copies a list of texts.
pub fn clone_texts(texts: &Vec<String>) -> (r: Vec<String>)
    ensures
        r.deep_view() == texts.deep_view(),
{
    let mut r: Vec<String> = Vec::new();
    let mut i: usize = 0;
    while i < texts.len()
        invariant
            i <= texts.len(),
            r.len() == i,
            forall|k: int| 0 <= k < i ==> r@[k]@ == texts@[k]@,
        decreases texts.len() - i,
    {
        r.push(texts[i].clone());
        i += 1;
    }
    assert(r.deep_view() =~= texts.deep_view());
    r
}

/// Copies an optional text.
pub fn clone_optional_text(text: &Option<String>) -> (r: Option<String>)
    ensures
        r.deep_view() == text.deep_view(),
{
    match text {
        Some(t) => Some(t.clone()),
        None => None,
    }
}

/// `before`, then `middle`, then `after`.
pub fn wrap(before: &str, middle: &str, after: &str) -> (r: String)
    ensures
        r@ == before@ + middle@ + after@,
{
    let mut r = join(before, middle);
    r.append(after);
    r
}

/// Whether `name` is among `names`.
pub fn is_among(names: &[String], name: &str) -> (r: bool)
    ensures
        r == names.deep_view().contains(name@),
{
    let mut j: usize = 0;
    while j < names.len()
        invariant
            j <= names.len(),
            forall|k: int| 0 <= k < j ==> names.deep_view()[k] != name@,
        decreases names.len() - j,
    {
        if same_text(names[j].as_str(), name) {
            assert(names.deep_view()[j as int] == name@);
            return true;
        }
        j += 1;
    }
    false
}

/// `a` followed by `b`.
pub fn join(a: &str, b: &str) -> (r: String)
    ensures
        r@ == a@ + b@,
{
    let mut r = String::from_str(a);
    r.append(b);
    r
}

} // verus!
