//! Character-level string helpers: equality, lexicographic order by code
//! point, substring extraction by character offsets, and the leading `this.`
//! rewrite used for method call sites.

use vstd::prelude::*;
use vstd::string::StrSliceExecFns;
use vstd::string::StringExecFns;

verus! {

broadcast use vstd::utf8::char_is_scalar, vstd::utf8::char_u32_cast;

/// The view of an optional value, `None` staying `None`.
pub open spec fn opt_view<T: View>(o: Option<T>) -> Option<T::V> {
    match o {
        Some(v) => Some(v@),
        None => None,
    }
}

/// Strict lexicographic order on character sequences, comparing code points.
pub open spec fn lex_lt(a: Seq<char>, b: Seq<char>) -> bool
    decreases a.len(), b.len(),
{
    if b.len() == 0 {
        false
    } else if a.len() == 0 {
        true
    } else if a[0] != b[0] {
        (a[0] as u32) < (b[0] as u32)
    } else {
        lex_lt(a.drop_first(), b.drop_first())
    }
}

/// Two distinct sequences are lexicographically ordered one way or the other.
pub proof fn lemma_lex_lt_total(a: Seq<char>, b: Seq<char>)
    requires
        a != b,
    ensures
        lex_lt(a, b) || lex_lt(b, a),
    decreases a.len(),
{
    if a.len() == 0 && b.len() == 0 {
        assert(a =~= b);
    }
    if a.len() > 0 && b.len() > 0 && a[0] != b[0] {
        vstd::utf8::char_u32_cast(a[0], a[0] as u32);
        vstd::utf8::char_u32_cast(b[0], b[0] as u32);
        assert((a[0] as u32) != (b[0] as u32));
    }
    if a.len() > 0 && b.len() > 0 && a[0] == b[0] {
        if a.drop_first() == b.drop_first() {
            assert(a.drop_first().len() == a.len() - 1);
            assert(b.drop_first().len() == b.len() - 1);
            assert(a.len() == b.len());
            assert forall|i: int| 0 <= i < a.len() implies a[i] == b[i] by {
                if i > 0 {
                    assert(a[i] == a.drop_first()[i - 1]);
                    assert(b[i] == b.drop_first()[i - 1]);
                }
            }
            assert(a =~= b);
        }
        lemma_lex_lt_total(a.drop_first(), b.drop_first());
    }
}

/// Lexicographic order is transitive.
pub proof fn lemma_lex_lt_trans(a: Seq<char>, b: Seq<char>, c: Seq<char>)
    requires
        lex_lt(a, b),
        lex_lt(b, c),
    ensures
        lex_lt(a, c),
    decreases a.len(),
{
    if a.len() > 0 && b.len() > 0 && c.len() > 0 && a[0] == b[0] && b[0] == c[0] {
        lemma_lex_lt_trans(a.drop_first(), b.drop_first(), c.drop_first());
    }
}

/// Skipping a common prefix does not change how two sequences compare.
pub proof fn lemma_lex_lt_skip(a: Seq<char>, b: Seq<char>, i: int)
    requires
        0 <= i <= a.len(),
        i <= b.len(),
        forall|j: int| 0 <= j < i ==> a[j] == b[j],
    ensures
        lex_lt(a, b) == lex_lt(a.skip(i), b.skip(i)),
    decreases i,
{
    if i > 0 {
        lemma_lex_lt_skip(a.drop_first(), b.drop_first(), i - 1);
        assert(a.drop_first().skip(i - 1) =~= a.skip(i));
        assert(b.drop_first().skip(i - 1) =~= b.skip(i));
    } else {
        assert(a.skip(0) =~= a);
        assert(b.skip(0) =~= b);
    }
}

/// Whether `a` comes strictly before `b` in lexicographic order.
pub fn str_lt(a: &str, b: &str) -> (r: bool)
    ensures
        r == lex_lt(a@, b@),
{
    let la = a.unicode_len();
    let lb = b.unicode_len();
    let mut i: usize = 0;
    while i < la && i < lb
        invariant
            la == a@.len(),
            lb == b@.len(),
            i <= la,
            i <= lb,
            forall|j: int| 0 <= j < i ==> a@[j] == b@[j],
        decreases la - i,
    {
        let ca = a.get_char(i);
        let cb = b.get_char(i);
        if ca != cb {
            proof {
                lemma_lex_lt_skip(a@, b@, i as int);
                assert(a@.skip(i as int)[0] == a@[i as int]);
                assert(b@.skip(i as int)[0] == b@[i as int]);
            }
            return (ca as u32) < (cb as u32);
        }
        i += 1;
    }
    proof {
        lemma_lex_lt_skip(a@, b@, i as int);
        assert(a@.skip(i as int).len() == la - i);
        assert(b@.skip(i as int).len() == lb - i);
    }
    la < lb
}

/// Whether `a` and `b` hold the same characters.
pub fn str_eq(a: &str, b: &str) -> (r: bool)
    ensures
        r == (a@ == b@),
{
    let la = a.unicode_len();
    let lb = b.unicode_len();
    if la != lb {
        return false;
    }
    let mut i: usize = 0;
    while i < la
        invariant
            la == a@.len(),
            la == b@.len(),
            i <= la,
            forall|j: int| 0 <= j < i ==> a@[j] == b@[j],
        decreases la - i,
    {
        if a.get_char(i) != b.get_char(i) {
            return false;
        }
        i += 1;
    }
    proof {
        assert(a@ =~= b@);
    }
    true
}

/// Relies on String::push: appends the given character to the end of the
/// string.
#[verifier::external_body]
pub(crate) fn push_char(s: &mut String, c: char)
    ensures
        final(s)@ == old(s)@.push(c),
{
    s.push(c);
}

/// The characters of `content` from `start` (inclusive) to `end` (exclusive),
/// or nothing when the offsets do not describe a range inside `content`.
pub open spec fn substr_spec(content: Seq<char>, start: int, end: int) -> Option<Seq<char>> {
    if 0 <= start <= end <= content.len() {
        Some(content.subrange(start, end))
    } else {
        None
    }
}

/// Copies the character range `[start, end)` out of `content`; offsets beyond
/// the text yield `None` rather than a panic.
pub fn substr(content: &str, start: usize, end: usize) -> (r: Option<String>)
    ensures
        opt_view(r) == substr_spec(content@, start as int, end as int),
{
    let n = content.unicode_len();
    if start <= end && end <= n {
        Some(String::from_str(content.substring_char(start, end)))
    } else {
        None
    }
}

/// Whether `needle` occurs contiguously inside `hay`.
pub open spec fn contains_sub(hay: Seq<char>, needle: Seq<char>) -> bool {
    exists|k: int|
        0 <= k && k + needle.len() <= hay.len() && #[trigger] hay.subrange(k, k + needle.len())
            == needle
}

/// Whether the characters of `needle` occur contiguously inside `hay`.
#[verifier::loop_isolation(false)]
pub fn contains_substr(hay: &str, needle: &str) -> (r: bool)
    ensures
        r == contains_sub(hay@, needle@),
{
    let hn = hay.unicode_len();
    let nn = needle.unicode_len();
    if nn > hn {
        return false;
    }
    if nn == 0 {
        proof {
            assert(hay@.subrange(0, 0 + needle@.len() as int) =~= needle@);
        }
        return true;
    }
    let mut k: usize = 0;
    while k <= hn - nn
        invariant
            k <= hn - nn + 1,
            forall|x: int|
                0 <= x < k ==> #[trigger] hay@.subrange(x, x + needle@.len()) != needle@,
        decreases hn - nn - k + 1,
    {
        let mut j: usize = 0;
        let mut mismatch = false;
        while j < nn
            invariant
                j <= nn,
                k + nn <= hn,
                !mismatch ==> forall|y: int| 0 <= y < j ==> hay@[k + y] == needle@[y],
                mismatch ==> hay@.subrange(k as int, k as int + needle@.len()) != needle@,
            decreases nn - j,
        {
            if hay.get_char(k + j) != needle.get_char(j) {
                proof {
                    let sub = hay@.subrange(k as int, k as int + needle@.len());
                    assert(sub[j as int] == hay@[k + j]);
                    assert(sub != needle@);
                }
                mismatch = true;
                j = nn;
            } else {
                j += 1;
            }
        }
        if !mismatch {
            proof {
                assert(hay@.subrange(k as int, k as int + needle@.len()) =~= needle@);
                assert(contains_sub(hay@, needle@));
            }
            return true;
        }
        k += 1;
    }
    proof {
        assert forall|x: int| 0 <= x && x + needle@.len() <= hay@.len() implies #[trigger] hay@.subrange(
            x,
            x + needle@.len(),
        ) != needle@ by {
            assert(x < k);
        }
    }
    false
}

/// The qualified name of a declaration: `"pkg.name"`, or the bare `name` when
/// no owning class exists.
pub open spec fn qualified_name(pkg: Seq<char>, name: Seq<char>) -> Seq<char> {
    if pkg.len() == 0 {
        name
    } else {
        pkg + seq!['.'] + name
    }
}

/// The five characters of the `this.` prefix recognized on method call sites.
pub open spec fn this_prefix() -> Seq<char> {
    seq!['t', 'h', 'i', 's', '.']
}

/// A callee text with a literal leading `this.` replaced by `clsdot` (the
/// class name plus a dot); any other text is kept as it stands.
pub open spec fn rewrite_this(callee: Seq<char>, clsdot: Seq<char>) -> Seq<char> {
    if callee.len() >= 5 && callee.take(5) == this_prefix() {
        clsdot + callee.skip(5)
    } else {
        callee
    }
}

/// Applies the leading `this.` rewrite to one extracted callee text. Only a
/// literal prefix is replaced; the rest of the expression is not parsed.
pub fn rewrite_this_call(callee: &String, clsdot: &String) -> (r: String)
    ensures
        r@ == rewrite_this(callee@, clsdot@),
{
    let s = callee.as_str();
    let n = s.unicode_len();
    if n >= 5 && s.get_char(0) == 't' && s.get_char(1) == 'h' && s.get_char(2) == 'i'
        && s.get_char(3) == 's' && s.get_char(4) == '.' {
        proof {
            assert(callee@.take(5) =~= this_prefix());
        }
        let mut r = clsdot.clone();
        r.append(s.substring_char(5, n));
        r
    } else {
        proof {
            if callee@.len() >= 5 {
                assert(callee@.take(5)[0] == callee@[0]);
                assert(callee@.take(5)[1] == callee@[1]);
                assert(callee@.take(5)[2] == callee@[2]);
                assert(callee@.take(5)[3] == callee@[3]);
                assert(callee@.take(5)[4] == callee@[4]);
            }
        }
        callee.clone()
    }
}

} // verus!
