//! String helpers shared by the whole crate: splitting a serialized option
//! value on a separator, joining entries back, and suffix tests.

use vstd::prelude::*;
use vstd::string::StrSliceExecFns;
use vstd::string::StringExecFns;

verus! {

/// The entries obtained by cutting `s` at every occurrence of `sep`.
/// Cutting the empty sequence yields one empty entry, as `str::split` does.
pub open spec fn spec_split(s: Seq<char>, sep: char) -> Seq<Seq<char>>
    decreases s.len(),
{
    if s.len() == 0 {
        seq![Seq::<char>::empty()]
    } else if s[0] == sep {
        seq![Seq::<char>::empty()] + spec_split(s.drop_first(), sep)
    } else {
        let rest = spec_split(s.drop_first(), sep);
        seq![seq![s[0]] + rest[0]] + rest.drop_first()
    }
}

/// The entries of `parts` laid out in order with `sep` between them.
pub open spec fn spec_join(parts: Seq<Seq<char>>, sep: char) -> Seq<char>
    decreases parts.len(),
{
    if parts.len() == 0 {
        Seq::<char>::empty()
    } else if parts.len() == 1 {
        parts[0]
    } else {
        parts[0] + seq![sep] + spec_join(parts.drop_first(), sep)
    }
}

pub open spec fn seq_has_char(s: Seq<char>, c: char) -> bool {
    exists|i: int| 0 <= i < s.len() && s[i] == c
}

pub open spec fn is_suffix_of(suffix: Seq<char>, s: Seq<char>) -> bool {
    suffix.len() <= s.len() && s.skip(s.len() - suffix.len()) == suffix
}

pub proof fn lemma_split_len(s: Seq<char>, sep: char)
    ensures
        spec_split(s, sep).len() >= 1,
    decreases s.len(),
{
    if s.len() != 0 {
        lemma_split_len(s.drop_first(), sep);
    }
}

/// A sequence free of the separator splits into itself alone.
pub proof fn lemma_split_no_sep(s: Seq<char>, sep: char)
    requires
        !seq_has_char(s, sep),
    ensures
        spec_split(s, sep) == seq![s],
    decreases s.len(),
{
    if s.len() == 0 {
        assert(spec_split(s, sep) == seq![Seq::<char>::empty()]);
        assert(s == Seq::<char>::empty());
    } else {
        assert(s[0] != sep);
        assert(!seq_has_char(s.drop_first(), sep)) by {
            assert forall|i: int| 0 <= i < s.drop_first().len() implies s.drop_first()[i]
                != sep by {
                assert(s.drop_first()[i] == s[i + 1]);
            }
        }
        lemma_split_no_sep(s.drop_first(), sep);
        assert(seq![s[0]] + s.drop_first() == s);
    }
}

/// Splitting `a + [sep] + b` where `a` is separator-free peels off `a`.
pub proof fn lemma_split_append(a: Seq<char>, b: Seq<char>, sep: char)
    requires
        !seq_has_char(a, sep),
    ensures
        spec_split(a + seq![sep] + b, sep) == seq![a] + spec_split(b, sep),
    decreases a.len(),
{
    let s = a + seq![sep] + b;
    if a.len() == 0 {
        assert(s[0] == sep);
        assert(s.drop_first() == b);
        assert(spec_split(s, sep) == seq![Seq::<char>::empty()] + spec_split(b, sep));
        assert(a =~= Seq::<char>::empty());
    } else {
        assert(s[0] == a[0]);
        assert(s[0] != sep);
        let a1 = a.drop_first();
        assert(!seq_has_char(a1, sep)) by {
            assert forall|i: int| 0 <= i < a1.len() implies a1[i] != sep by {
                assert(a1[i] == a[i + 1]);
            }
        }
        lemma_split_append(a1, b, sep);
        assert(s.drop_first() == a1 + seq![sep] + b);
        let rest = spec_split(s.drop_first(), sep);
        assert(rest == seq![a1] + spec_split(b, sep));
        assert(rest[0] == a1);
        assert(seq![s[0]] + rest[0] == a);
        assert(rest.drop_first() == spec_split(b, sep));
        assert(spec_split(s, sep) == seq![a] + spec_split(b, sep));
    }
}

/// Joining undoes splitting.
pub proof fn lemma_join_split(s: Seq<char>, sep: char)
    ensures
        spec_join(spec_split(s, sep), sep) == s,
    decreases s.len(),
{
    let parts = spec_split(s, sep);
    lemma_split_len(s, sep);
    if s.len() == 0 {
        assert(parts == seq![Seq::<char>::empty()]);
        assert(spec_join(parts, sep) == Seq::<char>::empty());
        assert(s == Seq::<char>::empty());
    } else if s[0] == sep {
        lemma_join_split(s.drop_first(), sep);
        let rest = spec_split(s.drop_first(), sep);
        lemma_split_len(s.drop_first(), sep);
        assert(parts == seq![Seq::<char>::empty()] + rest);
        assert(parts.len() >= 2);
        assert(parts.drop_first() == rest);
        assert(parts[0] == Seq::<char>::empty());
        assert(spec_join(parts, sep) == parts[0] + seq![sep] + spec_join(rest, sep));
        assert(parts[0] + seq![sep] + s.drop_first() == s);
    } else {
        lemma_join_split(s.drop_first(), sep);
        let rest = spec_split(s.drop_first(), sep);
        lemma_split_len(s.drop_first(), sep);
        assert(parts[0] == seq![s[0]] + rest[0]);
        if rest.len() == 1 {
            assert(parts.len() == 1);
            assert(spec_join(rest, sep) == rest[0]);
            assert(spec_join(parts, sep) == parts[0]);
            assert(seq![s[0]] + s.drop_first() == s);
            assert(rest[0] == s.drop_first());
        } else {
            assert(parts.drop_first() == rest.drop_first());
            assert(spec_join(parts, sep) == parts[0] + seq![sep] + spec_join(
                parts.drop_first(),
                sep,
            ));
            assert(spec_join(rest, sep) == rest[0] + seq![sep] + spec_join(
                rest.drop_first(),
                sep,
            ));
            assert(parts[0] + seq![sep] + spec_join(parts.drop_first(), sep) == seq![s[0]] + (
            rest[0] + seq![sep] + spec_join(rest.drop_first(), sep)));
            assert(seq![s[0]] + s.drop_first() == s);
        }
    }
}

/// Pushing onto a vector of strings pushes its view onto the deep view.
pub proof fn lemma_vec_string_push_deep_view(pre: Vec<String>, post: Vec<String>, s: String)
    requires
        post@ == pre@.push(s),
    ensures
        post.deep_view() =~= pre.deep_view().push(s@),
{
    assert forall|i: int| 0 <= i < post.deep_view().len() implies post.deep_view()[i]
        == pre.deep_view().push(s@)[i] by {
        if i < pre@.len() {
            assert(post@[i] == pre@[i]);
        }
    }
}

/// Cuts `s` at every `sep`, as the editor does for its option values.
pub fn split_on(s: &str, sep: char) -> (r: Vec<String>)
    ensures
        r.deep_view() == spec_split(s@, sep),
{
    let n = s.unicode_len();
    let mut r: Vec<String> = Vec::new();
    let mut start: usize = 0;
    let mut i: usize = 0;
    proof {
        assert(s@.subrange(0, n as int) =~= s@);
        assert(r.deep_view() =~= Seq::<Seq<char>>::empty());
        assert(Seq::<Seq<char>>::empty() + spec_split(s@, sep) =~= spec_split(s@, sep));
    }
    while i < n
        invariant
            0 <= start <= i <= n,
            n == s@.len(),
            !seq_has_char(s@.subrange(start as int, i as int), sep),
            spec_split(s@, sep) == r.deep_view() + spec_split(
                s@.subrange(start as int, n as int),
                sep,
            ),
        decreases n - i,
    {
        if s.get_char(i) == sep {
            let entry = s.substring_char(start, i).to_owned();
            let ghost pre = r;
            r.push(entry);
            proof {
                let tail = s@.subrange(start as int, n as int);
                let a = s@.subrange(start as int, i as int);
                let b = s@.subrange(i + 1, n as int);
                assert(tail =~= a + seq![sep] + b);
                lemma_split_append(a, b, sep);
                lemma_vec_string_push_deep_view(pre, r, entry);
                assert(r.deep_view() + spec_split(b, sep) =~= pre.deep_view() + (seq![a]
                    + spec_split(b, sep)));
            }
            start = i + 1;
        } else {
            proof {
                let a = s@.subrange(start as int, i as int);
                let a2 = s@.subrange(start as int, i + 1);
                assert(a2 =~= a.push(s@[i as int]));
                assert forall|j: int| 0 <= j < a2.len() implies a2[j] != sep by {
                    if j < a.len() {
                        assert(a2[j] == a[j]);
                    }
                }
            }
        }
        i = i + 1;
    }
    let entry = s.substring_char(start, n).to_owned();
    let ghost pre = r;
    r.push(entry);
    proof {
        let a = s@.subrange(start as int, n as int);
        lemma_split_no_sep(a, sep);
        lemma_vec_string_push_deep_view(pre, r, entry);
        assert(r.deep_view() =~= pre.deep_view() + spec_split(a, sep));
    }
    r
}

pub proof fn lemma_join_take(parts: Seq<Seq<char>>, sep: char, i: int)
    requires
        1 <= i < parts.len(),
    ensures
        spec_join(parts.take(i + 1), sep) == spec_join(parts.take(i), sep) + seq![sep]
            + parts[i],
    decreases i,
{
    let p1 = parts.take(i + 1);
    let p0 = parts.take(i);
    if i == 1 {
        assert(p1 == seq![parts[0], parts[1]]);
        assert(p0 == seq![parts[0]]);
        assert(p1.drop_first() == seq![parts[1]]);
        assert(spec_join(p1.drop_first(), sep) == parts[1]);
        assert(spec_join(p1, sep) == parts[0] + seq![sep] + parts[1]);
        assert(spec_join(p0, sep) == parts[0]);
    } else {
        lemma_join_take(parts.drop_first(), sep, i - 1);
        assert(p1.drop_first() == parts.drop_first().take(i));
        assert(p0.drop_first() == parts.drop_first().take(i - 1));
        assert(parts.drop_first()[i - 1] == parts[i]);
        assert(spec_join(p1, sep) == p1[0] + seq![sep] + spec_join(p1.drop_first(), sep));
        assert(spec_join(p0, sep) == p0[0] + seq![sep] + spec_join(p0.drop_first(), sep));
        assert((p0[0] + seq![sep] + spec_join(p0.drop_first(), sep)) + seq![sep] + parts[i]
            == p0[0] + seq![sep] + (spec_join(p0.drop_first(), sep) + seq![sep] + parts[i]));
    }
}

/// Lays the entries out in order with `sep` between them.
pub fn join_with(parts: &Vec<String>, sep: char) -> (r: String)
    ensures
        r@ == spec_join(parts.deep_view(), sep),
{
    if parts.len() == 0 {
        return String::new();
    }
    let mut r: String = parts[0].clone();
    let mut i: usize = 1;
    let mut sep_str = String::new();
    push_char(&mut sep_str, sep);
    while i < parts.len()
        invariant
            1 <= i <= parts.len(),
            sep_str@ == seq![sep],
            r@ == spec_join(parts.deep_view().take(i as int), sep),
        decreases parts.len() - i,
    {
        proof {
            lemma_join_take(parts.deep_view(), sep, i as int);
        }
        r.append(sep_str.as_str());
        r.append(parts[i].as_str());
        i = i + 1;
    }
    proof {
        assert(parts.deep_view().take(parts.len() as int) == parts.deep_view());
    }
    r
}

/// Whether `suffix` ends `s`.
pub fn has_suffix(s: &str, suffix: &str) -> (r: bool)
    ensures
        r == is_suffix_of(suffix@, s@),
{
    let n = s.unicode_len();
    let m = suffix.unicode_len();
    if m > n {
        return false;
    }
    let mut i: usize = 0;
    while i < m
        invariant
            0 <= i <= m <= n,
            n == s@.len(),
            m == suffix@.len(),
            forall|j: int| 0 <= j < i ==> s@[n - m + j] == suffix@[j],
        decreases m - i,
    {
        if s.get_char(n - m + i) != suffix.get_char(i) {
            assert(s@.skip(n - m)[i as int] != suffix@[i as int]);
            return false;
        }
        i = i + 1;
    }
    assert(s@.skip(n - m) =~= suffix@);
    true
}

/// Whether two string slices hold the same characters.
pub fn str_eq(a: &str, b: &str) -> (r: bool)
    ensures
        r == (a@ == b@),
{
    let n = a.unicode_len();
    if n != b.unicode_len() {
        return false;
    }
    let mut i: usize = 0;
    while i < n
        invariant
            0 <= i <= n,
            n == a@.len() == b@.len(),
            forall|j: int| 0 <= j < i ==> a@[j] == b@[j],
        decreases n - i,
    {
        if a.get_char(i) != b.get_char(i) {
            return false;
        }
        i = i + 1;
    }
    assert(a@ =~= b@);
    true
}

/// Relies on `String::push`: appends exactly the given character.
#[verifier::external_body]
pub fn push_char(s: &mut String, c: char)
    ensures
        final(s)@ == old(s)@.push(c),
{
    s.push(c);
}

/// Relies on `char::from_u32`: yields the character for every Unicode
/// scalar value and `None` for surrogates and out-of-range values.
#[verifier::external_body]
pub fn char_from_u32(v: u32) -> (r: Option<char>)
    ensures
        r == (if vstd::utf8::is_scalar(v) {
            Some(v as char)
        } else {
            None::<char>
        }),
{
    char::from_u32(v)
}

} // verus!
