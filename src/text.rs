//! Character-sequence facts used by URL matching and path splicing.

use vstd::prelude::*;

verus! {

/// `prefix` covers a run of whole segments at the start of `path`: it is a
/// string prefix that ends at the end of `path`, right before a `/`, or with
/// a `/` of its own.
pub open spec fn is_segment_prefix(prefix: Seq<char>, path: Seq<char>) -> bool {
    &&& prefix.len() <= path.len()
    &&& path.subrange(0, prefix.len() as int) == prefix
    &&& (prefix.len() == path.len() || (prefix.len() > 0 && prefix.last() == '/')
        || path[prefix.len() as int] == '/')
}

/// Whether `prefix` covers whole leading segments of `path`.
pub fn segment_prefix_of(prefix: &str, path: &str) -> (r: bool)
    ensures
        r == is_segment_prefix(prefix@, path@),
{
    let n = prefix.unicode_len();
    let m = path.unicode_len();
    if n > m {
        return false;
    }
    let mut i: usize = 0;
    while i < n
        invariant
            n == prefix@.len(),
            m == path@.len(),
            n <= m,
            i <= n,
            forall|j: int| 0 <= j < i ==> path@[j] == prefix@[j],
        decreases n - i,
    {
        if prefix.get_char(i) != path.get_char(i) {
            assert(path@.subrange(0, n as int)[i as int] != prefix@[i as int]);
            return false;
        }
        i = i + 1;
    }
    assert(path@.subrange(0, n as int) =~= prefix@);
    if n == m {
        true
    } else if n > 0 && prefix.get_char(n - 1) == '/' {
        true
    } else {
        path.get_char(n) == '/'
    }
}

/// Lexicographic order on characters, by code point; a proper prefix comes first.
pub open spec fn lex_less(a: Seq<char>, b: Seq<char>) -> bool
    decreases a.len(),
{
    if b.len() == 0 {
        false
    } else if a.len() == 0 {
        true
    } else if a[0] != b[0] {
        (a[0] as int) < (b[0] as int)
    } else {
        lex_less(a.drop_first(), b.drop_first())
    }
}

/// No sequence comes before itself, and of two sequences at most one comes first.
pub proof fn lemma_lex_less_asymmetric(a: Seq<char>, b: Seq<char>)
    ensures
        !(lex_less(a, b) && lex_less(b, a)),
        !lex_less(a, a),
    decreases a.len(),
{
    if a.len() > 0 && b.len() > 0 && a[0] == b[0] {
        lemma_lex_less_asymmetric(a.drop_first(), b.drop_first());
    }
    if a.len() > 0 {
        lemma_lex_less_asymmetric(a.drop_first(), a.drop_first());
    }
}

/// Of two different sequences one comes first.
pub proof fn lemma_lex_less_total(a: Seq<char>, b: Seq<char>)
    requires
        a != b,
    ensures
        lex_less(a, b) || lex_less(b, a),
    decreases a.len(),
{
    if a.len() == 0 {
        if b.len() == 0 {
            assert(a =~= b);
        }
    } else if b.len() == 0 {
    } else if a[0] == b[0] {
        if a.drop_first() == b.drop_first() {
            assert(a =~= seq![a[0]] + a.drop_first());
            assert(b =~= seq![b[0]] + b.drop_first());
        }
        lemma_lex_less_total(a.drop_first(), b.drop_first());
    } else {
        assert(a[0] as int != b[0] as int);
    }
}

/// The order is transitive.
pub proof fn lemma_lex_less_transitive(a: Seq<char>, b: Seq<char>, c: Seq<char>)
    requires
        lex_less(a, b),
        lex_less(b, c),
    ensures
        lex_less(a, c),
    decreases a.len(),
{
    if a.len() > 0 && b.len() > 0 && c.len() > 0 && a[0] == b[0] && b[0] == c[0] {
        lemma_lex_less_transitive(a.drop_first(), b.drop_first(), c.drop_first());
    }
}

/// Whether `a` comes before `b` in lexicographic order.
pub fn lex_less_than(a: &str, b: &str) -> (r: bool)
    ensures
        r == lex_less(a@, b@),
{
    let n = a.unicode_len();
    let m = b.unicode_len();
    let mut i: usize = 0;
    assert(a@.skip(0) =~= a@);
    assert(b@.skip(0) =~= b@);
    while i < n && i < m && a.get_char(i) == b.get_char(i)
        invariant
            n == a@.len(),
            m == b@.len(),
            i <= n,
            i <= m,
            lex_less(a@, b@) == lex_less(a@.skip(i as int), b@.skip(i as int)),
        decreases n - i,
    {
        assert(a@.skip(i as int).drop_first() =~= a@.skip(i + 1));
        assert(b@.skip(i as int).drop_first() =~= b@.skip(i + 1));
        i = i + 1;
    }
    if i == m {
        false
    } else if i == n {
        true
    } else {
        (a.get_char(i) as u32) < (b.get_char(i) as u32)
    }
}

/// The pieces of `s` between its `/` characters, in order; `n` slashes give
/// `n + 1` pieces.
pub open spec fn split_slash(s: Seq<char>) -> Seq<Seq<char>>
    decreases s.len(),
{
    if s.len() == 0 {
        seq![Seq::empty()]
    } else {
        let rest = split_slash(s.drop_first());
        if s[0] == '/' {
            seq![Seq::empty()] + rest
        } else {
            rest.update(0, seq![s[0]] + rest[0])
        }
    }
}

/// The pieces joined with `/` between neighbours.
pub open spec fn join_slash(parts: Seq<Seq<char>>) -> Seq<char>
    decreases parts.len(),
{
    if parts.len() == 0 {
        Seq::empty()
    } else if parts.len() == 1 {
        parts[0]
    } else {
        parts[0] + seq!['/'] + join_slash(parts.drop_first())
    }
}

/// The pieces that remain after the first `n` are dropped, joined with `/`.
pub open spec fn join_after(s: Seq<char>, n: nat) -> Seq<char> {
    let parts = split_slash(s);
    if n >= parts.len() {
        Seq::empty()
    } else {
        join_slash(parts.subrange(n as int, parts.len() as int))
    }
}

/// How splitting `s` relates to splitting `s` without its first character.
pub proof fn lemma_split_step(s: Seq<char>)
    requires
        s.len() > 0,
    ensures
        split_slash(s).len() >= 1,
        split_slash(s).len() == split_slash(s.drop_first()).len() + (if s[0] == '/' { 1int } else { 0 }),
        s[0] == '/' ==> split_slash(s) == seq![Seq::<char>::empty()] + split_slash(s.drop_first()),
        s[0] != '/' ==> split_slash(s).drop_first() == split_slash(s.drop_first()).drop_first(),
    decreases s.len(),
{
    lemma_split_nonempty(s.drop_first());
    if s[0] != '/' {
        let rest = split_slash(s.drop_first());
        assert(split_slash(s).drop_first() =~= rest.drop_first());
    }
}

/// Splitting always gives at least one piece.
pub proof fn lemma_split_nonempty(s: Seq<char>)
    ensures
        split_slash(s).len() >= 1,
    decreases s.len(),
{
    if s.len() > 0 {
        lemma_split_nonempty(s.drop_first());
    }
}

/// Joining the pieces gives the sequence back.
pub proof fn lemma_join_split(s: Seq<char>)
    ensures
        join_slash(split_slash(s)) == s,
    decreases s.len(),
{
    if s.len() > 0 {
        let t = s.drop_first();
        let rest = split_slash(t);
        lemma_join_split(t);
        lemma_split_step(s);
        lemma_split_nonempty(t);
        let parts = split_slash(s);
        if s[0] == '/' {
            assert(parts.drop_first() =~= rest);
            assert(s =~= seq!['/'] + t);
            assert(join_slash(parts) =~= Seq::<char>::empty() + seq!['/'] + join_slash(rest));
        } else {
            if rest.len() == 1 {
                assert(s =~= seq![s[0]] + rest[0]);
            } else {
                assert(parts.drop_first() =~= rest.drop_first());
                assert(s =~= seq![s[0]] + t);
                assert(join_slash(parts) =~= seq![s[0]] + join_slash(rest));
            }
        }
    }
}

/// Dropping pieces from a non-empty sequence, one character at a time.
pub proof fn lemma_join_after_step(s: Seq<char>, n: nat)
    requires
        s.len() > 0,
        n >= 1,
    ensures
        join_after(s, n) == (if s[0] == '/' {
            join_after(s.drop_first(), (n - 1) as nat)
        } else {
            join_after(s.drop_first(), n)
        }),
{
    let t = s.drop_first();
    let parts = split_slash(s);
    let rest = split_slash(t);
    lemma_split_step(s);
    lemma_split_nonempty(t);
    if n < parts.len() {
        if s[0] == '/' {
            assert(parts.subrange(n as int, parts.len() as int) =~= rest.subrange(n - 1, rest.len() as int));
        } else {
            assert(parts.subrange(n as int, parts.len() as int) =~= rest.subrange(n as int, rest.len() as int));
        }
    }
}

} // verus!
