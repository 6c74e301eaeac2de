use vstd::prelude::*;
use vstd::string::*;

verus! {

/// The characters of `s`, in order.
pub fn chars_of(s: &str) -> (v: Vec<char>)
    ensures
        v@ == s@,
{
    let n = s.unicode_len();
    let mut v: Vec<char> = Vec::new();
    let mut i: usize = 0;
    while i < n
        invariant
            n == s@.len(),
            i <= n,
            v@ == s@.take(i as int),
        decreases n - i,
    {
        v.push(s.get_char(i));
        i = i + 1;
        assert(v@ =~= s@.take(i as int));
    }
    assert(s@.take(n as int) =~= s@);
    v
}

/// Lexicographic order of strings by code point (the order of `str`'s `Ord`).
pub open spec fn chars_lt(a: Seq<char>, b: Seq<char>) -> bool
    decreases a.len(),
{
    if a.len() == 0 {
        b.len() > 0
    } else if b.len() == 0 {
        false
    } else if a[0] != b[0] {
        (a[0] as u32) < (b[0] as u32)
    } else {
        chars_lt(a.drop_first(), b.drop_first())
    }
}

/// `a` comes no later than `b`.
pub open spec fn chars_le(a: Seq<char>, b: Seq<char>) -> bool {
    !chars_lt(b, a)
}

pub proof fn lemma_chars_lt_asym(a: Seq<char>, b: Seq<char>)
    ensures
        chars_lt(a, b) ==> !chars_lt(b, a),
    decreases a.len(),
{
    if a.len() > 0 && b.len() > 0 && a[0] == b[0] {
        lemma_chars_lt_asym(a.drop_first(), b.drop_first());
    }
}

pub proof fn lemma_chars_lt_trans(a: Seq<char>, b: Seq<char>, c: Seq<char>)
    ensures
        chars_lt(a, b) && chars_lt(b, c) ==> chars_lt(a, c),
    decreases a.len(),
{
    if a.len() > 0 && b.len() > 0 && c.len() > 0 {
        lemma_chars_lt_trans(a.drop_first(), b.drop_first(), c.drop_first());
    }
}

/// `chars_le` is a total preorder.
pub proof fn lemma_chars_le_trans(a: Seq<char>, b: Seq<char>, c: Seq<char>)
    ensures
        chars_le(a, b) && chars_le(b, c) ==> chars_le(a, c),
    decreases a.len() + b.len() + c.len(),
{
    // le(a,b) = !lt(b,a); le(b,c) = !lt(c,b); want !lt(c,a).
    lemma_chars_le_trans_inner(a, b, c);
}

proof fn lemma_chars_le_trans_inner(a: Seq<char>, b: Seq<char>, c: Seq<char>)
    ensures
        !chars_lt(b, a) && !chars_lt(c, b) ==> !chars_lt(c, a),
    decreases a.len(),
{
    if a.len() > 0 && b.len() > 0 && c.len() > 0 {
        if a[0] == b[0] && b[0] == c[0] {
            lemma_chars_le_trans_inner(a.drop_first(), b.drop_first(), c.drop_first());
        } else {
            let (x, y, z) = (a[0] as u32, b[0] as u32, c[0] as u32);
            vstd::utf8::char_u32_cast(a[0], x);
            vstd::utf8::char_u32_cast(b[0], y);
            vstd::utf8::char_u32_cast(c[0], z);
            assert(!chars_lt(b, a) ==> (x <= y));
            assert(!chars_lt(c, b) ==> (y <= z));
        }
    }
}

/// Whether `a` comes strictly before `b`.
pub fn chars_less(a: &Vec<char>, b: &Vec<char>) -> (r: bool)
    ensures
        r == chars_lt(a@, b@),
{
    let mut i: usize = 0;
    assert(a@.skip(0) =~= a@);
    assert(b@.skip(0) =~= b@);
    while i < a.len() && i < b.len()
        invariant
            i <= a@.len(),
            i <= b@.len(),
            a@.take(i as int) == b@.take(i as int),
            chars_lt(a@, b@) == chars_lt(a@.skip(i as int), b@.skip(i as int)),
        decreases a@.len() - i,
    {
        if a[i] != b[i] {
            assert(a@.skip(i as int)[0] == a@[i as int]);
            assert(b@.skip(i as int)[0] == b@[i as int]);
            return (a[i] as u32) < (b[i] as u32);
        }
        assert(a@.skip(i as int).drop_first() =~= a@.skip(i + 1));
        assert(b@.skip(i as int).drop_first() =~= b@.skip(i + 1));
        assert(a@.take(i + 1) =~= a@.take(i as int).push(a@[i as int]));
        assert(b@.take(i + 1) =~= b@.take(i as int).push(b@[i as int]));
        i = i + 1;
    }
    i < b.len()
}

/// The lower-case form of a string, as `str::to_lowercase` computes it.
pub uninterp spec fn str_lowercase(s: Seq<char>) -> Seq<char>;

/// Calls `str::to_lowercase`; the result is stated only as the named value
/// `str_lowercase(s)`.
#[verifier::external_body]
pub(crate) fn lowercase(s: &str) -> (r: String)
    ensures
        r@ == str_lowercase(s@),
{
    s.to_lowercase()
}

/// Calls `String::push`, which appends one character.
#[verifier::external_body]
pub(crate) fn push_char(s: &mut String, c: char)
    ensures
        final(s)@ == old(s)@.push(c),
{
    s.push(c)
}

/// The pieces of `s` between the occurrences of `sep` (`str::split` with a character):
/// one more piece than there are separators.
pub open spec fn split_on(s: Seq<char>, sep: char) -> Seq<Seq<char>>
    decreases s.len(),
{
    if s.len() == 0 {
        seq![Seq::empty()]
    } else {
        let r = split_on(s.drop_last(), sep);
        if s.last() == sep {
            r.push(Seq::empty())
        } else {
            r.update(r.len() - 1, r.last().push(s.last()))
        }
    }
}

pub proof fn lemma_split_nonempty(s: Seq<char>, sep: char)
    ensures
        split_on(s, sep).len() >= 1,
    decreases s.len(),
{
    if s.len() > 0 {
        lemma_split_nonempty(s.drop_last(), sep);
    }
}

/// Splits `s` at every `sep`.
pub fn split_chars(s: &str, sep: char) -> (parts: Vec<String>)
    ensures
        parts@.map_values(|p: String| p@) == split_on(s@, sep),
{
    broadcast use vstd::string::group_string_axioms;

    let mut parts: Vec<String> = Vec::new();
    let mut cur = String::new();
    let ghost cs = s@;
    assert(cs.take(0) =~= Seq::<char>::empty());
    assert(parts@.map_values(|p: String| p@).push(cur@) =~= split_on(cs.take(0), sep));
    for c in it: s.chars()
        invariant
            it.seq() == cs,
            cs == s@,
            parts@.map_values(|p: String| p@).push(cur@) == split_on(cs.take(it.index() as int), sep),
    {
        let ghost i = it.index() as int;
        let ghost before = parts@.map_values(|p: String| p@);
        proof {
            lemma_split_nonempty(cs.take(i), sep);
            assert(cs.take(i + 1).drop_last() =~= cs.take(i));
            assert(cs.take(i + 1).last() == c);
        }
        if c == sep {
            parts.push(cur);
            cur = String::new();
            assert(parts@.map_values(|p: String| p@).push(cur@) =~= split_on(cs.take(i + 1), sep));
        } else {
            push_char(&mut cur, c);
            assert(parts@.map_values(|p: String| p@).push(cur@) =~= split_on(cs.take(i + 1), sep));
        }
    }
    assert(cs.take(cs.len() as int) =~= cs);
    parts.push(cur);
    parts
}

/// No piece of a split holds the separator.
pub proof fn lemma_split_pieces(s: Seq<char>, sep: char)
    ensures
        forall|i: int, k: int| 0 <= i < split_on(s, sep).len() && 0 <= k < split_on(s, sep)[i].len() ==> #[trigger] split_on(s, sep)[i][k] != sep,
    decreases s.len(),
{
    if s.len() > 0 {
        lemma_split_pieces(s.drop_last(), sep);
        lemma_split_nonempty(s.drop_last(), sep);
        let r = split_on(s.drop_last(), sep);
        if s.last() != sep {
            let r2 = split_on(s, sep);
            assert forall|i: int, k: int| 0 <= i < r2.len() && 0 <= k < r2[i].len() implies #[trigger] r2[i][k] != sep by {
                if i == r.len() - 1 {
                    if k < r.last().len() {
                        assert(r2[i][k] == r[i][k]);
                    }
                } else {
                    assert(r2[i] == r[i]);
                }
            }
        }
    }
}

/// A string without the separator is one piece.
pub proof fn lemma_split_single(s: Seq<char>, sep: char)
    requires
        forall|k: int| 0 <= k < s.len() ==> #[trigger] s[k] != sep,
    ensures
        split_on(s, sep) == seq![s],
    decreases s.len(),
{
    if s.len() > 0 {
        assert forall|k: int| 0 <= k < s.drop_last().len() implies #[trigger] s.drop_last()[k] != sep by {
            assert(s.drop_last()[k] == s[k]);
        }
        lemma_split_single(s.drop_last(), sep);
        assert(s.last() != sep);
        assert(s.drop_last().push(s.last()) =~= s);
        assert(seq![s.drop_last()].update(0, s.drop_last().push(s.last())) =~= seq![s]);
    } else {
        assert(s =~= Seq::<char>::empty());
    }
}

/// Splitting `x + y`: the last piece of `x` runs on into the first piece of `y`.
pub proof fn lemma_split_concat(x: Seq<char>, y: Seq<char>, sep: char)
    ensures
        ({
            let p = split_on(x, sep);
            let q = split_on(y, sep);
            split_on(x + y, sep) == p.drop_last() + seq![p.last() + q[0]] + q.drop_first()
        }),
    decreases y.len(),
{
    let p = split_on(x, sep);
    let q = split_on(y, sep);
    lemma_split_nonempty(x, sep);
    lemma_split_nonempty(y, sep);
    if y.len() == 0 {
        assert(x + y =~= x);
        assert(q =~= seq![Seq::<char>::empty()]);
        assert(p.drop_last() + seq![p.last() + q[0]] + q.drop_first() =~= p);
    } else {
        let y1 = y.drop_last();
        let c = y.last();
        let q1 = split_on(y1, sep);
        lemma_split_concat(x, y1, sep);
        lemma_split_nonempty(y1, sep);
        assert((x + y).drop_last() =~= x + y1);
        assert((x + y).last() == c);
        let r = split_on(x + y1, sep);
        assert(r == p.drop_last() + seq![p.last() + q1[0]] + q1.drop_first());
        if c == sep {
            assert(q == q1.push(Seq::empty()));
            assert(r.push(Seq::empty()) =~= p.drop_last() + seq![p.last() + q[0]] + q.drop_first());
        } else {
            assert(q == q1.update(q1.len() - 1, q1.last().push(c)));
            if q1.len() == 1 {
                assert((p.last() + q1[0]).push(c) =~= p.last() + q1[0].push(c));
                assert(r.update(r.len() - 1, r.last().push(c)) =~= p.drop_last() + seq![p.last() + q[0]] + q.drop_first());
            } else {
                assert(r.update(r.len() - 1, r.last().push(c)) =~= p.drop_last() + seq![p.last() + q[0]] + q.drop_first());
            }
        }
    }
}

} // verus!
