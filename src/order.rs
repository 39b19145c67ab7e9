use vstd::prelude::*;
use vstd::utf8::{encode_utf8, encode_utf8_decode_utf8};

verus! {

/// A three-way comparison: negative, zero or positive.
pub open spec fn sign_of(c: int) -> std::cmp::Ordering {
    if c < 0 {
        std::cmp::Ordering::Less
    } else if c == 0 {
        std::cmp::Ordering::Equal
    } else {
        std::cmp::Ordering::Greater
    }
}

/// `c` is a strict total order on `T`, given as a three-way comparison.
pub open spec fn is_total_cmp<T>(c: spec_fn(T, T) -> int) -> bool {
    &&& forall|x: T, y: T| #[trigger] c(x, y) == 0 <==> x == y
    &&& forall|x: T, y: T| -1 <= #[trigger] c(x, y) <= 1
    &&& forall|x: T, y: T| #[trigger] c(x, y) == -c(y, x)
    &&& forall|x: T, y: T, z: T| #[trigger] c(x, y) < 0 && #[trigger] c(y, z) < 0 ==> c(x, z) < 0
}

/// Lexicographic comparison of two sequences: the first differing element
/// decides, and a proper prefix comes first.
pub open spec fn lex_cmp<T>(a: Seq<T>, b: Seq<T>, c: spec_fn(T, T) -> int) -> int
    decreases a.len(),
{
    if a.len() == 0 {
        if b.len() == 0 {
            0
        } else {
            -1
        }
    } else if b.len() == 0 {
        1
    } else if c(a[0], b[0]) != 0 {
        c(a[0], b[0])
    } else {
        lex_cmp(a.drop_first(), b.drop_first(), c)
    }
}

pub proof fn lemma_lex_skip<T>(a: Seq<T>, b: Seq<T>, c: spec_fn(T, T) -> int, i: int)
    requires
        0 <= i < a.len(),
        i < b.len(),
        c(a[i], b[i]) == 0,
    ensures
        lex_cmp(a.skip(i), b.skip(i), c) == lex_cmp(a.skip(i + 1), b.skip(i + 1), c),
{
    assert(a.skip(i).drop_first() =~= a.skip(i + 1));
    assert(b.skip(i).drop_first() =~= b.skip(i + 1));
}

pub proof fn lemma_lex_prefix_first<T>(a: Seq<T>, b: Seq<T>, c: spec_fn(T, T) -> int)
    requires
        a.len() < b.len(),
        a =~= b.subrange(0, a.len() as int),
        is_total_cmp(c),
    ensures
        lex_cmp(a, b, c) < 0,
    decreases a.len(),
{
    if a.len() > 0 {
        assert(c(a[0], b[0]) == 0);
        assert(a.drop_first() =~= b.drop_first().subrange(0, a.drop_first().len() as int));
        lemma_lex_prefix_first(a.drop_first(), b.drop_first(), c);
    }
}

pub proof fn lemma_lex_total<T>(c: spec_fn(T, T) -> int, a: Seq<T>, b: Seq<T>, d: Seq<T>)
    requires
        is_total_cmp(c),
    ensures
        lex_cmp(a, b, c) == 0 <==> a == b,
        -1 <= lex_cmp(a, b, c) <= 1,
        lex_cmp(a, b, c) == -lex_cmp(b, a, c),
        lex_cmp(a, b, c) < 0 && lex_cmp(b, d, c) < 0 ==> lex_cmp(a, d, c) < 0,
    decreases a.len(),
{
    if a.len() > 0 && b.len() > 0 {
        assert(c(a[0], b[0]) == -c(b[0], a[0]));
        if d.len() > 0 {
            lemma_lex_total(c, a.drop_first(), b.drop_first(), d.drop_first());
            if c(a[0], b[0]) == 0 && c(b[0], d[0]) == 0 {
                assert(a[0] == b[0] && b[0] == d[0]);
            }
            if c(a[0], b[0]) < 0 && c(b[0], d[0]) == 0 {
                assert(b[0] == d[0]);
            }
            if c(a[0], b[0]) == 0 && c(b[0], d[0]) < 0 {
                assert(a[0] == b[0]);
            }
        } else {
            lemma_lex_total(c, a.drop_first(), b.drop_first(), d);
        }
        if lex_cmp(a, b, c) == 0 {
            assert(a[0] == b[0]);
            assert(a =~= seq![a[0]] + a.drop_first());
            assert(b =~= seq![b[0]] + b.drop_first());
        }
    }
    if a.len() == 0 && b.len() == 0 {
        assert(a =~= b);
    }
}

/// Three-way comparison of bytes.
pub open spec fn byte_cmp(x: u8, y: u8) -> int {
    if x < y {
        -1
    } else if x == y {
        0
    } else {
        1
    }
}

pub open spec fn byte_order() -> spec_fn(u8, u8) -> int {
    |x: u8, y: u8| byte_cmp(x, y)
}

/// Strings are ordered by their UTF-8 bytes, lexicographically.
pub open spec fn str_cmp(a: Seq<char>, b: Seq<char>) -> int {
    lex_cmp(encode_utf8(a), encode_utf8(b), byte_order())
}

pub open spec fn str_order() -> spec_fn(Seq<char>, Seq<char>) -> int {
    |x: Seq<char>, y: Seq<char>| str_cmp(x, y)
}

pub proof fn lemma_byte_cmp_total()
    ensures
        is_total_cmp(byte_order()),
{
}

pub proof fn lemma_str_cmp(x: Seq<char>, y: Seq<char>, z: Seq<char>)
    ensures
        str_cmp(x, y) == 0 <==> x == y,
        -1 <= str_cmp(x, y) <= 1,
        str_cmp(x, y) == -str_cmp(y, x),
        str_cmp(x, y) < 0 && str_cmp(y, z) < 0 ==> str_cmp(x, z) < 0,
{
    lemma_byte_cmp_total();
    lemma_lex_total(byte_order(), encode_utf8(x), encode_utf8(y), encode_utf8(z));
    if str_cmp(x, y) == 0 {
        encode_utf8_decode_utf8(x);
        encode_utf8_decode_utf8(y);
    }
}

pub proof fn lemma_str_cmp_total()
    ensures
        is_total_cmp(str_order()),
{
    let bc = byte_order();
    lemma_byte_cmp_total();
    assert forall|x: Seq<char>, y: Seq<char>|
        #![trigger str_cmp(x, y)]
        (str_cmp(x, y) == 0 <==> x == y) && -1 <= str_cmp(x, y) <= 1 && str_cmp(x, y)
            == -str_cmp(y, x) by {
        lemma_lex_total(bc, encode_utf8(x), encode_utf8(y), encode_utf8(y));
        if str_cmp(x, y) == 0 {
            encode_utf8_decode_utf8(x);
            encode_utf8_decode_utf8(y);
        }
    }
    assert forall|x: Seq<char>, y: Seq<char>, z: Seq<char>|
        #![trigger str_cmp(x, y), str_cmp(y, z)]
        str_cmp(x, y) < 0 && str_cmp(y, z) < 0 implies str_cmp(x, z) < 0 by {
        lemma_lex_total(bc, encode_utf8(x), encode_utf8(y), encode_utf8(z));
    }
}

/// Compares two strings by their UTF-8 bytes.
pub fn compare_str(a: &str, b: &str) -> (r: std::cmp::Ordering)
    ensures
        r == sign_of(str_cmp(a@, b@)),
{
    let ab = a.as_bytes();
    let bb = b.as_bytes();
    let ghost c = byte_order();
    let ghost sa = encode_utf8(a@);
    let ghost sb = encode_utf8(b@);
    let mut i: usize = 0;
    assert(sa.skip(0) =~= sa);
    assert(sb.skip(0) =~= sb);
    while i < ab.len() && i < bb.len()
        invariant
            c == byte_order(),
            sa == encode_utf8(a@),
            sb == encode_utf8(b@),
            ab@ == sa,
            bb@ == sb,
            0 <= i <= ab.len(),
            i <= bb.len(),
            lex_cmp(sa, sb, c) == lex_cmp(sa.skip(i as int), sb.skip(i as int), c),
        decreases ab.len() - i,
    {
        assert(sa.skip(i as int)[0] == ab[i as int]);
        assert(sb.skip(i as int)[0] == bb[i as int]);
        assert(c(ab[i as int], bb[i as int]) == byte_cmp(ab[i as int], bb[i as int]));
        assert(sa.skip(i as int).len() > 0 && sb.skip(i as int).len() > 0);
        if ab[i] < bb[i] {
            return std::cmp::Ordering::Less;
        } else if ab[i] > bb[i] {
            return std::cmp::Ordering::Greater;
        }
        proof {
            lemma_lex_skip(sa, sb, c, i as int);
        }
        i = i + 1;
    }
    assert(sa.skip(i as int).len() == sa.len() - i);
    if i < ab.len() {
        std::cmp::Ordering::Greater
    } else if i < bb.len() {
        std::cmp::Ordering::Less
    } else {
        std::cmp::Ordering::Equal
    }
}

/// Tells whether two strings hold the same characters.
pub fn same_str(a: &str, b: &str) -> (r: bool)
    ensures
        r == (a@ == b@),
{
    proof {
        lemma_str_cmp_total();
    }
    let o = compare_str(a, b);
    proof {
        assert(str_order()(a@, b@) == str_cmp(a@, b@));
    }
    match o {
        std::cmp::Ordering::Equal => true,
        _ => false,
    }
}

} // verus!
