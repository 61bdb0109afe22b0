//! Character-level helpers shared by the text layouts.
use vstd::prelude::*;

verus! {

/// The characters of `s`.
pub fn chars_of(s: &str) -> (r: Vec<char>)
    ensures
        r@ == s@,
{
    let mut v: Vec<char> = Vec::new();
    for c in it: s.chars()
        invariant
            v@ == it.seq().take(it.index() as int),
            it.seq() == s@,
    {
        v.push(c);
    }
    v
}

/// Whether `a` holds exactly the characters of `b`.
pub fn eq_str(a: &[char], b: &str) -> (r: bool)
    ensures
        r == (a@ == b@),
{
    let bc = chars_of(b);
    eq_chars(a, bc.as_slice())
}

/// Whether the two character sequences are equal.
pub fn eq_chars(a: &[char], b: &[char]) -> (r: bool)
    ensures
        r == (a@ == b@),
{
    if a.len() != b.len() {
        return false;
    }
    let mut i: usize = 0;
    while i < a.len()
        invariant
            a@.len() == b@.len(),
            i <= a@.len(),
            a@.take(i as int) == b@.take(i as int),
        decreases a@.len() - i,
    {
        if a[i] != b[i] {
            assert(a@[i as int] != b@[i as int]);
            return false;
        }
        assert(a@.take(i + 1) == a@.take(i as int).push(a@[i as int]));
        assert(b@.take(i + 1) == b@.take(i as int).push(b@[i as int]));
        i = i + 1;
    }
    assert(a@ == a@.take(i as int));
    assert(b@ == b@.take(i as int));
    true
}

} // verus!

verus! {

/// Relies on `String::from_utf8`: it succeeds exactly on well-formed UTF-8,
/// and the string then holds the characters that the bytes encode.
#[verifier::external_body]
pub fn utf8_to_string(bytes: Vec<u8>) -> (r: Option<String>)
    ensures
        r is Some <==> vstd::utf8::valid_utf8(bytes@),
        r matches Some(s) ==> s@ == vstd::utf8::decode_utf8(bytes@),
{
    String::from_utf8(bytes).ok()
}

/// Relies on `String`'s `FromIterator<&char>`: the string holds the characters in order.
#[verifier::external_body]
pub fn string_from_chars(cs: &[char]) -> (r: String)
    ensures
        r@ == cs@,
{
    String::from_iter(cs)
}

/// Appends the items of `src` to `out`.
pub fn extend_from<T: Copy>(out: &mut Vec<T>, src: &[T])
    ensures
        final(out)@ == old(out)@ + src@,
{
    let n = src.len();
    let mut i: usize = 0;
    while i < n
        invariant
            n == src@.len(),
            i <= n,
            out@ == old(out)@ + src@.take(i as int),
        decreases n - i,
    {
        out.push(src[i]);
        proof {
            assert(src@.take(i + 1) =~= src@.take(i as int).push(src@[i as int]));
        }
        i = i + 1;
    }
    proof {
        assert(src@.take(n as int) == src@);
    }
}

} // verus!

verus! {

/// The characters that Unicode gives the White_Space property.
pub open spec fn is_ws(c: char) -> bool {
    let u = c as u32;
    (9 <= u <= 13) || u == 32 || u == 0x85 || u == 0xA0 || u == 0x1680 || (0x2000 <= u <= 0x200A)
        || u == 0x2028 || u == 0x2029 || u == 0x202F || u == 0x205F || u == 0x3000
}

/// Whether `c` is white space.
pub fn is_whitespace(c: char) -> (r: bool)
    ensures
        r == is_ws(c),
{
    let u = c as u32;
    (9 <= u && u <= 13) || u == 32 || u == 0x85 || u == 0xA0 || u == 0x1680 || (0x2000 <= u && u
        <= 0x200A) || u == 0x2028 || u == 0x2029 || u == 0x202F || u == 0x205F || u == 0x3000
}

/// `s` without its leading white space.
pub open spec fn trim_start(s: Seq<char>) -> Seq<char>
    decreases s.len(),
{
    if s.len() > 0 && is_ws(s[0]) {
        trim_start(s.drop_first())
    } else {
        s
    }
}

/// `s` without its trailing white space.
pub open spec fn trim_end(s: Seq<char>) -> Seq<char>
    decreases s.len(),
{
    if s.len() > 0 && is_ws(s.last()) {
        trim_end(s.drop_last())
    } else {
        s
    }
}

/// `s` without surrounding white space.
pub open spec fn trim(s: Seq<char>) -> Seq<char> {
    trim_end(trim_start(s))
}

/// The characters of `s` without surrounding white space.
pub fn trim_chars(s: &[char]) -> (r: Vec<char>)
    ensures
        r@ == trim(s@),
{
    let n = s.len();
    let mut a: usize = 0;
    proof {
        assert(s@.subrange(0, n as int) =~= s@);
    }
    while a < n && is_whitespace(s[a])
        invariant
            a <= n,
            n == s@.len(),
            trim_start(s@) == trim_start(s@.subrange(a as int, n as int)),
        decreases n - a,
    {
        proof {
            assert(s@.subrange(a as int, n as int).drop_first() =~= s@.subrange(a + 1, n as int));
        }
        a = a + 1;
    }
    let mut b: usize = n;
    while b > a && is_whitespace(s[b - 1])
        invariant
            a <= b <= n,
            n == s@.len(),
            trim_start(s@) == s@.subrange(a as int, n as int),
            trim(s@) == trim_end(s@.subrange(a as int, b as int)),
        decreases b - a,
    {
        proof {
            assert(s@.subrange(a as int, b as int).drop_last() =~= s@.subrange(a as int, b - 1));
        }
        b = b - 1;
    }
    vstd::slice::slice_to_vec(&s[a..b])
}

/// The position of the first `c` in `s`, or the length of `s` if there is none.
pub open spec fn index_of(s: Seq<char>, c: char) -> nat
    decreases s.len(),
{
    if s.len() == 0 || s[0] == c {
        0
    } else {
        1 + index_of(s.drop_first(), c)
    }
}

/// The position found is in range, holds `c` when below the length, and no `c` comes before it.
pub proof fn lemma_index_of(s: Seq<char>, c: char)
    ensures
        index_of(s, c) <= s.len(),
        index_of(s, c) < s.len() ==> s[index_of(s, c) as int] == c,
        forall|j: int| 0 <= j < index_of(s, c) ==> s[j] != c,
    decreases s.len(),
{
    if s.len() > 0 && s[0] != c {
        lemma_index_of(s.drop_first(), c);
        assert forall|j: int| 0 <= j < index_of(s, c) implies s[j] != c by {
            if j > 0 {
                assert(s[j] == s.drop_first()[j - 1]);
            }
        }
    }
}

/// The first `c` of `s` stands at `k` when none comes before it.
pub proof fn lemma_index_of_at(s: Seq<char>, c: char, k: int)
    requires
        0 <= k <= s.len(),
        k < s.len() ==> s[k] == c,
        forall|j: int| 0 <= j < k ==> s[j] != c,
    ensures
        index_of(s, c) == k,
    decreases k,
{
    if k > 0 {
        assert forall|j: int| 0 <= j < k - 1 implies s.drop_first()[j] != c by {
            assert(s[j + 1] != c);
        }
        lemma_index_of_at(s.drop_first(), c, k - 1);
    }
}

/// The position of the first `c` at or after `from`, or the length of `s`.
pub fn find_char(s: &[char], from: usize, c: char) -> (r: usize)
    requires
        from <= s@.len(),
    ensures
        r == from + index_of(s@.subrange(from as int, s@.len() as int), c),
{
    let n = s.len();
    let mut i: usize = from;
    while i < n && s[i] != c
        invariant
            from <= i <= n,
            n == s@.len(),
            from + index_of(s@.subrange(from as int, n as int), c) == i + index_of(
                s@.subrange(i as int, n as int),
                c,
            ),
        decreases n - i,
    {
        proof {
            assert(s@.subrange(i as int, n as int).drop_first() =~= s@.subrange(i + 1, n as int));
        }
        i = i + 1;
    }
    i
}

/// The lines of `s`: the pieces between newline characters, the last one
/// running to the end.
pub open spec fn lines_of(s: Seq<char>) -> Seq<Seq<char>>
    decreases s.len(),
{
    let i = index_of(s, '\n');
    if i >= s.len() {
        seq![s]
    } else {
        seq![s.take(i as int)] + lines_of(s.skip(i + 1 as int))
    }
}

/// At most `n` pieces of `s` cut at `c`; the last piece keeps any further `c`.
pub open spec fn split_n(s: Seq<char>, c: char, n: nat) -> Seq<Seq<char>>
    decreases n,
{
    let i = index_of(s, c);
    if n <= 1 || i >= s.len() {
        seq![s]
    } else {
        seq![s.take(i as int)] + split_n(s.skip(i + 1 as int), c, (n - 1) as nat)
    }
}

/// The character sequences that a vector of character vectors holds.
pub open spec fn views_of(v: Seq<Vec<char>>) -> Seq<Seq<char>> {
    v.map_values(|x: Vec<char>| x@)
}

/// Cuts `s` into its lines.
pub fn split_lines(s: &[char]) -> (r: Vec<Vec<char>>)
    ensures
        views_of(r@) == lines_of(s@),
{
    let n = s.len();
    let mut out: Vec<Vec<char>> = Vec::new();
    let mut start: usize = 0;
    proof {
        assert(s@.subrange(0, n as int) =~= s@);
        assert(views_of(out@) + lines_of(s@) =~= lines_of(s@));
    }
    loop
        invariant_except_break
            start <= n,
            n == s@.len(),
            lines_of(s@) == views_of(out@) + lines_of(s@.subrange(start as int, n as int)),
        ensures
            views_of(out@) == lines_of(s@),
        decreases n - start,
    {
        let ghost rest = s@.subrange(start as int, n as int);
        let i = find_char(s, start, '\n');
        proof {
            lemma_index_of(rest, '\n');
        }
        let ghost before = out@;
        if i >= n {
            out.push(vstd::slice::slice_to_vec(&s[start..n]));
            proof {
                assert(views_of(out@) =~= views_of(before) + seq![rest]);
            }
            break;
        }
        out.push(vstd::slice::slice_to_vec(&s[start..i]));
        proof {
            assert(rest.take(i - start) =~= s@.subrange(start as int, i as int));
            assert(rest.skip(i - start + 1) =~= s@.subrange(i + 1, n as int));
            assert(views_of(out@) =~= views_of(before) + seq![s@.subrange(start as int, i as int)]);
            assert(views_of(out@) + lines_of(s@.subrange(i + 1, n as int)) =~= views_of(before)
                + lines_of(rest));
        }
        start = i + 1;
    }
    out
}

/// Cuts `s` at `c` into at most `max` pieces.
pub fn split_fields(s: &[char], c: char, max: usize) -> (r: Vec<Vec<char>>)
    ensures
        views_of(r@) == split_n(s@, c, max as nat),
{
    let n = s.len();
    let mut out: Vec<Vec<char>> = Vec::new();
    let mut start: usize = 0;
    proof {
        assert(s@.subrange(0, n as int) =~= s@);
        assert(views_of(out@) + split_n(s@, c, max as nat) =~= split_n(s@, c, max as nat));
    }
    loop
        invariant_except_break
            start <= n,
            n == s@.len(),
            out@.len() < max || (max == 0 && out@.len() == 0),
            split_n(s@, c, max as nat) == views_of(out@) + split_n(
                s@.subrange(start as int, n as int),
                c,
                (max - out@.len()) as nat,
            ),
        ensures
            views_of(out@) == split_n(s@, c, max as nat),
        decreases n - start,
    {
        let ghost rest = s@.subrange(start as int, n as int);
        let ghost left = (max - out@.len()) as nat;
        let i = find_char(s, start, c);
        proof {
            lemma_index_of(rest, c);
        }
        let ghost before = out@;
        if max - out.len() <= 1 || i >= n {
            out.push(vstd::slice::slice_to_vec(&s[start..n]));
            proof {
                assert(views_of(out@) =~= views_of(before) + seq![rest]);
            }
            break;
        }
        out.push(vstd::slice::slice_to_vec(&s[start..i]));
        proof {
            assert(rest.take(i - start) =~= s@.subrange(start as int, i as int));
            assert(rest.skip(i - start + 1) =~= s@.subrange(i + 1, n as int));
            assert(views_of(out@) =~= views_of(before) + seq![s@.subrange(start as int, i as int)]);
            assert(views_of(out@) + split_n(s@.subrange(i + 1, n as int), c, (left - 1) as nat)
                =~= views_of(before) + split_n(rest, c, left));
        }
        start = i + 1;
    }
    out
}

} // verus!

verus! {

/// Appends the characters of `s` to `out`.
pub fn push_str(out: &mut Vec<char>, s: &str)
    ensures
        final(out)@ == old(out)@ + s@,
{
    let cs = chars_of(s);
    extend_from(out, cs.as_slice());
}

/// Appends the UTF-8 encoding of `text` to `out`.
pub fn push_utf8(out: &mut Vec<u8>, text: &[char])
    ensures
        final(out)@ == old(out)@ + vstd::utf8::encode_utf8(text@),
{
    let s = string_from_chars(text);
    extend_from(out, s.as_str().as_bytes());
}

} // verus!

verus! {

/// A capital letter, a digit or an underscore.
pub open spec fn is_word_char(c: char) -> bool {
    let u = c as u32;
    (65 <= u <= 90) || (48 <= u <= 57) || u == 95
}

/// A non-empty run of capital letters, digits and underscores.
pub open spec fn is_word(s: Seq<char>) -> bool {
    s.len() > 0 && forall|i: int| 0 <= i < s.len() ==> #[trigger] is_word_char(s[i])
}

/// `s` holds no `c`.
pub open spec fn lacks(s: Seq<char>, c: char) -> bool {
    forall|i: int| 0 <= i < s.len() ==> #[trigger] s[i] != c
}

/// A word holds none of the layout's punctuation.
pub proof fn lemma_word_lacks(s: Seq<char>)
    requires
        is_word(s),
    ensures
        lacks(s, ','),
        lacks(s, '\n'),
        lacks(s, ':'),
        !is_ws(s[0]),
        !is_ws(s.last()),
        s[0] != '#',
{
    assert(is_word_char(s[0]));
    assert(is_word_char(s.last()));
    assert forall|i: int| 0 <= i < s.len() implies #[trigger] s[i] != ',' && s[i] != '\n' && s[i]
        != ':' by {
        assert(is_word_char(s[i]));
    }
}

/// Text that neither starts nor ends with white space is its own trimmed form.
pub proof fn lemma_trim_id(s: Seq<char>)
    requires
        s.len() > 0,
        !is_ws(s[0]),
        !is_ws(s.last()),
    ensures
        trim(s) == s,
{
}

/// A line without a newline, a newline, then more text: the line comes first.
pub proof fn lemma_lines_cons(a: Seq<char>, rest: Seq<char>)
    requires
        lacks(a, '\n'),
    ensures
        lines_of(a + seq!['\n'] + rest) == seq![a] + lines_of(rest),
{
    let s = a + seq!['\n'] + rest;
    lemma_index_of_at(s, '\n', a.len() as int);
    assert(s.take(a.len() as int) =~= a);
    assert(s.skip(a.len() + 1 as int) =~= rest);
}

/// A piece without `c`, then `c`, then more text: the piece is the first field.
pub proof fn lemma_split_cons(a: Seq<char>, c: char, rest: Seq<char>, n: nat)
    requires
        lacks(a, c),
        n >= 2,
    ensures
        split_n(a + seq![c] + rest, c, n) == seq![a] + split_n(rest, c, (n - 1) as nat),
{
    let s = a + seq![c] + rest;
    lemma_index_of_at(s, c, a.len() as int);
    assert(s.take(a.len() as int) =~= a);
    assert(s.skip(a.len() + 1 as int) =~= rest);
}

} // verus!
