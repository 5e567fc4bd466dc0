//! Character classes, joining, ordering and decimal rendering of text.

use vstd::prelude::*;
use vstd::string::StrSliceExecFns;
use vstd::string::StringExecFns;

use crate::contract::strings_view;

verus! {

pub open spec fn is_lower(c: char) -> bool {
    'a' <= c && c <= 'z'
}

pub open spec fn is_digit(c: char) -> bool {
    '0' <= c && c <= '9'
}

pub open spec fn is_alphanumeric(c: char) -> bool {
    is_lower(c) || is_digit(c) || ('A' <= c && c <= 'Z')
}

/// `segments` joined with `sep` between consecutive items.
pub open spec fn join_with(segments: Seq<Seq<char>>, sep: Seq<char>) -> Seq<char>
    decreases segments.len(),
{
    if segments.len() == 0 {
        Seq::empty()
    } else if segments.len() == 1 {
        segments[0]
    } else {
        join_with(segments.drop_last(), sep) + sep + segments.last()
    }
}

/// A command path as the single space-separated string that keys it.
pub open spec fn joined_path(segments: Seq<Seq<char>>) -> Seq<char> {
    join_with(segments, seq![' '])
}

/// Lexicographic order of character sequences from position `i` on.
pub open spec fn text_lt_from(a: Seq<char>, b: Seq<char>, i: int) -> bool
    decreases a.len() - i,
{
    if i < 0 || i >= a.len() {
        0 <= i < b.len()
    } else if i >= b.len() {
        false
    } else if a[i] != b[i] {
        a[i] < b[i]
    } else {
        text_lt_from(a, b, i + 1)
    }
}

/// Lexicographic order of character sequences (by code point).
pub open spec fn text_lt(a: Seq<char>, b: Seq<char>) -> bool {
    text_lt_from(a, b, 0)
}

/// Lexicographic order of sequences of character sequences from position `i` on.
pub open spec fn segments_lt_from(a: Seq<Seq<char>>, b: Seq<Seq<char>>, i: int) -> bool
    decreases a.len() - i,
{
    if i < 0 || i >= a.len() {
        0 <= i < b.len()
    } else if i >= b.len() {
        false
    } else if a[i] != b[i] {
        text_lt(a[i], b[i])
    } else {
        segments_lt_from(a, b, i + 1)
    }
}

/// Lexicographic order of command paths, element by element.
pub open spec fn segments_lt(a: Seq<Seq<char>>, b: Seq<Seq<char>>) -> bool {
    segments_lt_from(a, b, 0)
}

pub open spec fn digit_char(d: nat) -> char {
    if d == 0 {
        '0'
    } else if d == 1 {
        '1'
    } else if d == 2 {
        '2'
    } else if d == 3 {
        '3'
    } else if d == 4 {
        '4'
    } else if d == 5 {
        '5'
    } else if d == 6 {
        '6'
    } else if d == 7 {
        '7'
    } else if d == 8 {
        '8'
    } else {
        '9'
    }
}

/// The decimal rendering of a natural number.
pub open spec fn decimal(n: nat) -> Seq<char>
    decreases n,
{
    if n < 10 {
        seq![digit_char(n)]
    } else {
        decimal(n / 10).push(digit_char(n % 10))
    }
}

proof fn lemma_text_lt_from_irreflexive(a: Seq<char>, i: int)
    requires
        0 <= i,
    ensures
        !text_lt_from(a, a, i),
    decreases a.len() - i,
{
    if i < a.len() {
        lemma_text_lt_from_irreflexive(a, i + 1);
    }
}

proof fn lemma_text_lt_from_transitive(a: Seq<char>, b: Seq<char>, c: Seq<char>, i: int)
    requires
        0 <= i,
        text_lt_from(a, b, i),
        text_lt_from(b, c, i),
    ensures
        text_lt_from(a, c, i),
    decreases a.len() - i,
{
    if i < a.len() && i < b.len() && i < c.len() && a[i] == b[i] && b[i] == c[i] {
        lemma_text_lt_from_transitive(a, b, c, i + 1);
    }
}

proof fn lemma_text_lt_from_total(a: Seq<char>, b: Seq<char>, i: int)
    requires
        0 <= i <= a.len(),
        i <= b.len(),
        a.subrange(0, i) == b.subrange(0, i),
        a != b,
    ensures
        text_lt_from(a, b, i) || text_lt_from(b, a, i),
        !(text_lt_from(a, b, i) && text_lt_from(b, a, i)),
    decreases a.len() - i,
{
    if i < a.len() && i < b.len() && a[i] == b[i] {
        assert(a.subrange(0, i + 1) =~= a.subrange(0, i).push(a[i]));
        assert(b.subrange(0, i + 1) =~= b.subrange(0, i).push(b[i]));
        lemma_text_lt_from_total(a, b, i + 1);
    } else if i == a.len() && i == b.len() {
        assert(a =~= a.subrange(0, i));
        assert(b =~= b.subrange(0, i));
    }
}

/// `text_lt` is a strict total order.
pub proof fn lemma_text_order(a: Seq<char>, b: Seq<char>, c: Seq<char>)
    ensures
        !text_lt(a, a),
        text_lt(a, b) && text_lt(b, c) ==> text_lt(a, c),
        a != b ==> (text_lt(a, b) || text_lt(b, a)),
        !(text_lt(a, b) && text_lt(b, a)),
{
    lemma_text_lt_from_irreflexive(a, 0);
    if text_lt(a, b) && text_lt(b, c) {
        lemma_text_lt_from_transitive(a, b, c, 0);
    }
    if a != b {
        assert(a.subrange(0, 0) =~= b.subrange(0, 0));
        lemma_text_lt_from_total(a, b, 0);
    } else {
        lemma_text_lt_from_irreflexive(a, 0);
    }
}

proof fn lemma_segments_lt_from_irreflexive(a: Seq<Seq<char>>, i: int)
    requires
        0 <= i,
    ensures
        !segments_lt_from(a, a, i),
    decreases a.len() - i,
{
    if i < a.len() {
        lemma_segments_lt_from_irreflexive(a, i + 1);
    }
}

proof fn lemma_segments_lt_from_transitive(
    a: Seq<Seq<char>>,
    b: Seq<Seq<char>>,
    c: Seq<Seq<char>>,
    i: int,
)
    requires
        0 <= i,
        segments_lt_from(a, b, i),
        segments_lt_from(b, c, i),
    ensures
        segments_lt_from(a, c, i),
    decreases a.len() - i,
{
    if i < a.len() && i < b.len() && i < c.len() {
        lemma_text_order(a[i], b[i], c[i]);
        if a[i] == b[i] && b[i] == c[i] {
            lemma_segments_lt_from_transitive(a, b, c, i + 1);
        }
    }
}

proof fn lemma_segments_lt_from_total(a: Seq<Seq<char>>, b: Seq<Seq<char>>, i: int)
    requires
        0 <= i <= a.len(),
        i <= b.len(),
        a.subrange(0, i) == b.subrange(0, i),
        a != b,
    ensures
        segments_lt_from(a, b, i) || segments_lt_from(b, a, i),
        !(segments_lt_from(a, b, i) && segments_lt_from(b, a, i)),
    decreases a.len() - i,
{
    if i < a.len() && i < b.len() {
        lemma_text_order(a[i], b[i], a[i]);
        if a[i] == b[i] {
            assert(a.subrange(0, i + 1) =~= a.subrange(0, i).push(a[i]));
            assert(b.subrange(0, i + 1) =~= b.subrange(0, i).push(b[i]));
            lemma_segments_lt_from_total(a, b, i + 1);
        }
    } else if i == a.len() && i == b.len() {
        assert(a =~= a.subrange(0, i));
        assert(b =~= b.subrange(0, i));
    }
}

/// `segments_lt` is a strict total order.
pub proof fn lemma_segments_order(a: Seq<Seq<char>>, b: Seq<Seq<char>>, c: Seq<Seq<char>>)
    ensures
        !segments_lt(a, a),
        segments_lt(a, b) && segments_lt(b, c) ==> segments_lt(a, c),
        a != b ==> (segments_lt(a, b) || segments_lt(b, a)),
        !(segments_lt(a, b) && segments_lt(b, a)),
{
    lemma_segments_lt_from_irreflexive(a, 0);
    if segments_lt(a, b) && segments_lt(b, c) {
        lemma_segments_lt_from_transitive(a, b, c, 0);
    }
    if a != b {
        assert(a.subrange(0, 0) =~= b.subrange(0, 0));
        lemma_segments_lt_from_total(a, b, 0);
    } else {
        lemma_segments_lt_from_irreflexive(a, 0);
    }
}

/// Whether `a` sorts strictly before `b`, character by character.
pub fn text_less(a: &str, b: &str) -> (r: bool)
    ensures
        r == text_lt(a@, b@),
{
    let la = a.unicode_len();
    let lb = b.unicode_len();
    let mut i: usize = 0;
    while i < la && i < lb
        invariant
            la == a@.len(),
            lb == b@.len(),
            i <= la,
            i <= lb,
            text_lt(a@, b@) == text_lt_from(a@, b@, i as int),
        decreases la - i,
    {
        let ca = a.get_char(i);
        let cb = b.get_char(i);
        if ca != cb {
            return ca < cb;
        }
        i = i + 1;
    }
    i < lb && i >= la
}

/// Whether path `a` sorts strictly before path `b`, segment by segment.
pub fn segments_less(a: &Vec<String>, b: &Vec<String>) -> (r: bool)
    ensures
        r == segments_lt(strings_view(a@), strings_view(b@)),
{
    let ghost va = strings_view(a@);
    let ghost vb = strings_view(b@);
    let mut i: usize = 0;
    while i < a.len() && i < b.len()
        invariant
            va == strings_view(a@),
            vb == strings_view(b@),
            i <= a.len(),
            i <= b.len(),
            segments_lt(va, vb) == segments_lt_from(va, vb, i as int),
        decreases a.len() - i,
    {
        if a[i] != b[i] {
            let r = text_less(a[i].as_str(), b[i].as_str());
            return r;
        }
        i = i + 1;
    }
    i < b.len() && i >= a.len()
}

/// `segments` joined with `sep`.
pub fn join_strings(segments: &Vec<String>, sep: &str) -> (r: String)
    ensures
        r@ == join_with(strings_view(segments@), sep@),
{
    let mut out = String::new();
    let mut i: usize = 0;
    while i < segments.len()
        invariant
            i <= segments.len(),
            out@ == join_with(strings_view(segments@).subrange(0, i as int), sep@),
        decreases segments.len() - i,
    {
        let ghost before = strings_view(segments@).subrange(0, i as int);
        let ghost after = strings_view(segments@).subrange(0, i + 1);
        assert(after.drop_last() =~= before);
        if i > 0 {
            out.append(sep);
        }
        out.append(segments[i].as_str());
        i = i + 1;
    }
    assert(strings_view(segments@).subrange(0, i as int) =~= strings_view(segments@));
    out
}

/// A command path joined by single spaces.
pub fn join_path(segments: &Vec<String>) -> (r: String)
    ensures
        r@ == joined_path(strings_view(segments@)),
{
    let r = join_strings(segments, " ");
    proof {
        reveal_strlit(" ");
    }
    assert(" "@ =~= seq![' ']);
    r
}

fn digit_text(d: usize) -> (r: &'static str)
    requires
        d < 10,
    ensures
        r@ == seq![digit_char(d as nat)],
{
    proof {
        reveal_strlit("0");
        reveal_strlit("1");
        reveal_strlit("2");
        reveal_strlit("3");
        reveal_strlit("4");
        reveal_strlit("5");
        reveal_strlit("6");
        reveal_strlit("7");
        reveal_strlit("8");
        reveal_strlit("9");
    }
    let r = if d == 0 {
        "0"
    } else if d == 1 {
        "1"
    } else if d == 2 {
        "2"
    } else if d == 3 {
        "3"
    } else if d == 4 {
        "4"
    } else if d == 5 {
        "5"
    } else if d == 6 {
        "6"
    } else if d == 7 {
        "7"
    } else if d == 8 {
        "8"
    } else {
        "9"
    };
    assert(r@ =~= seq![digit_char(d as nat)]);
    r
}

/// The decimal rendering of `n`.
pub fn decimal_text(n: usize) -> (r: String)
    ensures
        r@ == decimal(n as nat),
    decreases n,
{
    if n < 10 {
        String::from_str(digit_text(n))
    } else {
        let mut s = decimal_text(n / 10);
        s.append(digit_text(n % 10));
        s
    }
}

/// `a` followed by `x` and `b`.
pub fn concat3(a: &str, x: &str, b: &str) -> (r: String)
    ensures
        r@ == a@ + x@ + b@,
{
    let mut r = String::from_str(a);
    r.append(x);
    r.append(b);
    r
}

/// `a`, `x`, `b`, `y`, `c` in sequence.
pub fn concat5(a: &str, x: &str, b: &str, y: &str, c: &str) -> (r: String)
    ensures
        r@ == a@ + x@ + b@ + y@ + c@,
{
    let mut r = String::from_str(a);
    r.append(x);
    r.append(b);
    r.append(y);
    r.append(c);
    r
}

/// `a`, `x`, `b`, `y`, `c`, `z`, `d` in sequence.
pub fn concat7(a: &str, x: &str, b: &str, y: &str, c: &str, z: &str, d: &str) -> (r: String)
    ensures
        r@ == a@ + x@ + b@ + y@ + c@ + z@ + d@,
{
    let mut r = concat5(a, x, b, y, c);
    r.append(z);
    r.append(d);
    r
}

/// Whether two texts hold the same characters.
pub fn text_equal(a: &str, b: &str) -> (r: bool)
    ensures
        r == (a@ == b@),
{
    let la = a.unicode_len();
    let lb = b.unicode_len();
    if la != lb {
        return false;
    }
    let mut i: usize = 0;
    while i < la
        invariant
            la == a@.len(),
            lb == b@.len(),
            la == lb,
            i <= la,
            a@.subrange(0, i as int) == b@.subrange(0, i as int),
        decreases la - i,
    {
        if a.get_char(i) != b.get_char(i) {
            return false;
        }
        assert(a@.subrange(0, i + 1) =~= a@.subrange(0, i as int).push(a@[i as int]));
        assert(b@.subrange(0, i + 1) =~= b@.subrange(0, i as int).push(b@[i as int]));
        i = i + 1;
    }
    assert(a@ =~= a@.subrange(0, i as int));
    assert(b@ =~= b@.subrange(0, i as int));
    true
}

/// The characters of each text of a list of borrowed texts.
pub open spec fn strs_view(v: Seq<&str>) -> Seq<Seq<char>> {
    v.map_values(|s: &str| s@)
}

/// Whether `v` holds a text equal to `s`.
pub fn contains_text(v: &Vec<&str>, s: &str) -> (r: bool)
    ensures
        r == strs_view(v@).contains(s@),
{
    let mut i: usize = 0;
    while i < v.len()
        invariant
            i <= v.len(),
            forall|k: int| 0 <= k < i ==> v@[k]@ != s@,
        decreases v.len() - i,
    {
        if text_equal(v[i], s) {
            assert(strs_view(v@)[i as int] == s@);
            return true;
        }
        i = i + 1;
    }
    proof {
        if strs_view(v@).contains(s@) {
            let k = choose|k: int| 0 <= k < strs_view(v@).len() && strs_view(v@)[k] == s@;
            assert(v@[k]@ == s@);
        }
    }
    false
}

} // verus!
