//! Character-level text helpers: case-insensitive comparison, trimming,
//! splitting and joining on a separator character.
//!
//! All manipulation happens on `Vec<char>`, converted once at the boundary;
//! the specifications are over `Seq<char>`.

use vstd::prelude::*;

verus! {

/// Relies on `str::chars`: yields the characters of the string, in order.
#[verifier::external_body]
pub(crate) fn str_chars(s: &str) -> (r: Vec<char>)
    ensures
        r@ == s@,
{
    s.chars().collect()
}

/// Relies on `String`'s `FromIterator<char>` impl: collects the characters
/// in order.
#[verifier::external_body]
pub(crate) fn chars_string(v: &Vec<char>) -> (r: String)
    ensures
        r@ == v@,
{
    v.iter().collect()
}

/// The code point a character compares as when case is ignored: ASCII
/// upper-case letters fold to their lower-case counterparts, everything else
/// is itself.
pub open spec fn fold_code(c: char) -> int {
    if 65 <= c as u32 <= 90 {
        c as u32 + 32
    } else {
        c as u32 as int
    }
}

/// Case-insensitive equality of two character sequences (ASCII folding).
pub open spec fn ci_eq(a: Seq<char>, b: Seq<char>) -> bool {
    a.len() == b.len() && forall|i: int| 0 <= i < a.len() ==> fold_code(a[i]) == fold_code(b[i])
}

fn fold_char(c: char) -> (r: u32)
    ensures
        r == fold_code(c),
{
    let u = c as u32;
    if 65 <= u && u <= 90 {
        u + 32
    } else {
        u
    }
}

/// Compare two strings for equality ignoring ASCII case.
pub fn eq_ignore_case(a: &str, b: &str) -> (r: bool)
    ensures
        r == ci_eq(a@, b@),
{
    let av = str_chars(a);
    let bv = str_chars(b);
    if av.len() != bv.len() {
        return false;
    }
    let n = av.len();
    let mut i: usize = 0;
    while i < n
        invariant
            n == av.len() == bv.len(),
            av@ == a@,
            bv@ == b@,
            0 <= i <= n,
            forall|j: int| 0 <= j < i ==> fold_code(a@[j]) == fold_code(b@[j]),
        decreases n - i,
    {
        if fold_char(av[i]) != fold_char(bv[i]) {
            return false;
        }
        i = i + 1;
    }
    true
}

/// The ASCII whitespace characters stripped by trimming.
pub open spec fn is_space(c: char) -> bool {
    c == ' ' || c == '\t' || c == '\n' || c == '\r'
}

/// A sequence with leading whitespace removed.
pub open spec fn trim_front(s: Seq<char>) -> Seq<char>
    decreases s.len(),
{
    if s.len() > 0 && is_space(s[0]) {
        trim_front(s.drop_first())
    } else {
        s
    }
}

/// A sequence with trailing whitespace removed.
pub open spec fn trim_back(s: Seq<char>) -> Seq<char>
    decreases s.len(),
{
    if s.len() > 0 && is_space(s[s.len() - 1]) {
        trim_back(s.drop_last())
    } else {
        s
    }
}

/// A sequence with whitespace removed from both ends.
pub open spec fn trim(s: Seq<char>) -> Seq<char> {
    trim_back(trim_front(s))
}

proof fn lemma_trim_front_range(s: Seq<char>, k: int)
    requires
        0 <= k <= s.len(),
        forall|j: int| 0 <= j < k ==> is_space(s[j]),
        k < s.len() ==> !is_space(s[k]),
    ensures
        trim_front(s) =~= s.subrange(k, s.len() as int),
    decreases s.len(),
{
    if s.len() > 0 && is_space(s[0]) {
        assert(k > 0) by {
            if k == 0 {
                assert(!is_space(s[0]));
            }
        }
        lemma_trim_front_range(s.drop_first(), k - 1);
        assert(s.drop_first().subrange(k - 1, s.drop_first().len() as int) =~= s.subrange(
            k,
            s.len() as int,
        ));
    } else {
        assert(k == 0);
        assert(s.subrange(0, s.len() as int) =~= s);
    }
}

proof fn lemma_trim_back_range(s: Seq<char>, k: int)
    requires
        0 <= k <= s.len(),
        forall|j: int| k <= j < s.len() ==> is_space(s[j]),
        k > 0 ==> !is_space(s[k - 1]),
    ensures
        trim_back(s) =~= s.subrange(0, k),
    decreases s.len(),
{
    if s.len() > 0 && is_space(s[s.len() - 1]) {
        assert(k < s.len());
        lemma_trim_back_range(s.drop_last(), k);
        assert(s.drop_last().subrange(0, k) =~= s.subrange(0, k));
    } else {
        assert(k == s.len());
        assert(s.subrange(0, s.len() as int) =~= s);
    }
}

fn is_space_char(c: char) -> (r: bool)
    ensures
        r == is_space(c),
{
    c == ' ' || c == '\t' || c == '\n' || c == '\r'
}

/// Strip ASCII whitespace from both ends of a character vector.
pub fn trim_chars(s: &Vec<char>) -> (r: Vec<char>)
    ensures
        r@ == trim(s@),
{
    let n = s.len();
    let mut lo: usize = 0;
    while lo < n && is_space_char(s[lo])
        invariant
            0 <= lo <= n,
            n == s@.len(),
            forall|j: int| 0 <= j < lo ==> is_space(s@[j]),
        decreases n - lo,
    {
        lo = lo + 1;
    }
    proof {
        lemma_trim_front_range(s@, lo as int);
    }
    let ghost f = trim_front(s@);
    let mut hi: usize = n;
    while hi > lo && is_space_char(s[hi - 1])
        invariant
            lo <= hi <= n,
            n == s@.len(),
            f =~= s@.subrange(lo as int, n as int),
            forall|j: int| hi <= j < n ==> is_space(s@[j]),
        decreases hi,
    {
        hi = hi - 1;
    }
    proof {
        assert(forall|j: int| hi - lo <= j < f.len() ==> is_space(#[trigger] f[j]));
        assert(hi > lo ==> !is_space(f[hi - lo - 1]));
        lemma_trim_back_range(f, hi - lo);
    }
    let mut out: Vec<char> = Vec::new();
    let mut i: usize = lo;
    while i < hi
        invariant
            lo <= i <= hi <= n,
            n == s@.len(),
            out@ =~= s@.subrange(lo as int, i as int),
        decreases hi - i,
    {
        out.push(s[i]);
        assert(out@ =~= s@.subrange(lo as int, i + 1 as int));
        i = i + 1;
    }
    proof {
        assert(f.subrange(0, hi - lo) =~= s@.subrange(lo as int, hi as int));
    }
    out
}

/// The index of the first occurrence of `sep`, or the length if absent.
pub open spec fn find_char(s: Seq<char>, sep: char) -> int
    decreases s.len(),
{
    if s.len() == 0 {
        0
    } else if s[0] == sep {
        0
    } else {
        1 + find_char(s.drop_first(), sep)
    }
}

pub proof fn lemma_find_char(s: Seq<char>, sep: char)
    ensures
        0 <= find_char(s, sep) <= s.len(),
        forall|j: int| 0 <= j < find_char(s, sep) ==> s[j] != sep,
        find_char(s, sep) < s.len() ==> s[find_char(s, sep)] == sep,
    decreases s.len(),
{
    if s.len() > 0 && s[0] != sep {
        lemma_find_char(s.drop_first(), sep);
        assert(forall|j: int| 1 <= j < s.len() ==> s[j] == s.drop_first()[j - 1]);
    }
}

/// The pieces of `s` between occurrences of `sep`, in order. A sequence
/// without the separator is a single piece; separators at the ends or in a
/// row contribute empty pieces.
pub open spec fn split_on(s: Seq<char>, sep: char) -> Seq<Seq<char>>
    decreases s.len(),
    via split_on_decreases
{
    let i = find_char(s, sep);
    if i == s.len() {
        seq![s]
    } else {
        seq![s.subrange(0, i)] + split_on(s.subrange(i + 1, s.len() as int), sep)
    }
}

#[via_fn]
proof fn split_on_decreases(s: Seq<char>, sep: char) {
    lemma_find_char(s, sep);
}

/// The pieces joined back together with `sep` between consecutive pieces.
pub open spec fn join_with(parts: Seq<Seq<char>>, sep: char) -> Seq<char>
    decreases parts.len(),
{
    if parts.len() == 0 {
        Seq::empty()
    } else if parts.len() == 1 {
        parts[0]
    } else {
        parts[0] + seq![sep] + join_with(parts.drop_first(), sep)
    }
}

/// Splitting never yields an empty piece list.
pub proof fn lemma_split_nonempty(s: Seq<char>, sep: char)
    ensures
        split_on(s, sep).len() >= 1,
{
    lemma_find_char(s, sep);
}

/// Joining the pieces of a split restores the original sequence.
pub proof fn lemma_join_split(s: Seq<char>, sep: char)
    ensures
        join_with(split_on(s, sep), sep) =~= s,
    decreases s.len(),
{
    lemma_find_char(s, sep);
    let i = find_char(s, sep);
    if i < s.len() {
        let rest = s.subrange(i + 1, s.len() as int);
        lemma_join_split(rest, sep);
        lemma_split_nonempty(rest, sep);
        let parts = seq![s.subrange(0, i)] + split_on(rest, sep);
        assert(parts.len() >= 2);
        assert(parts.drop_first() =~= split_on(rest, sep));
        assert(join_with(parts, sep) == parts[0] + seq![sep] + join_with(parts.drop_first(), sep));
        assert(s.subrange(0, i) + seq![sep] + rest =~= s);
    }
}

/// Splitting the join restores the pieces, provided none contains the
/// separator.
pub proof fn lemma_split_join(parts: Seq<Seq<char>>, sep: char)
    requires
        parts.len() >= 1,
        forall|i: int, j: int|
            0 <= i < parts.len() && 0 <= j < parts[i].len() ==> #[trigger] parts[i][j] != sep,
    ensures
        split_on(join_with(parts, sep), sep) =~= parts,
    decreases parts.len(),
{
    let s = join_with(parts, sep);
    if parts.len() == 1 {
        assert(forall|j: int| 0 <= j < s.len() ==> s[j] != sep);
        lemma_find_char_none(s, sep);
        assert(split_on(s, sep) =~= seq![s]);
    } else {
        let head = parts[0];
        let tail = join_with(parts.drop_first(), sep);
        assert(s =~= head + seq![sep] + tail);
        assert(forall|j: int| 0 <= j < head.len() ==> s[j] != sep);
        assert(s[head.len() as int] == sep);
        lemma_find_char_at(s, sep, head.len() as int);
        assert(s.subrange(0, head.len() as int) =~= head);
        assert(s.subrange(head.len() as int + 1, s.len() as int) =~= tail);
        assert(forall|i: int, j: int|
            0 <= i < parts.drop_first().len() && 0 <= j < parts.drop_first()[i].len()
                ==> #[trigger] parts.drop_first()[i][j] != sep) by {
            assert(forall|i: int|
                0 <= i < parts.drop_first().len() ==> parts.drop_first()[i] == parts[i + 1]);
        }
        lemma_split_join(parts.drop_first(), sep);
    }
}

pub proof fn lemma_find_char_none(s: Seq<char>, sep: char)
    requires
        forall|j: int| 0 <= j < s.len() ==> s[j] != sep,
    ensures
        find_char(s, sep) == s.len(),
    decreases s.len(),
{
    if s.len() > 0 {
        assert(forall|j: int| 0 <= j < s.drop_first().len() ==> s.drop_first()[j] != sep);
        lemma_find_char_none(s.drop_first(), sep);
    }
}

pub proof fn lemma_find_char_at(s: Seq<char>, sep: char, k: int)
    requires
        0 <= k < s.len(),
        forall|j: int| 0 <= j < k ==> s[j] != sep,
        s[k] == sep,
    ensures
        find_char(s, sep) == k,
    decreases s.len(),
{
    if k > 0 {
        assert(forall|j: int| 0 <= j < k - 1 ==> s.drop_first()[j] != sep);
        lemma_find_char_at(s.drop_first(), sep, k - 1);
    }
}

/// A copy of the characters in positions `from .. to`.
pub fn sub_vec(s: &Vec<char>, from: usize, to: usize) -> (r: Vec<char>)
    requires
        from <= to <= s@.len(),
    ensures
        r@ == s@.subrange(from as int, to as int),
{
    let mut out: Vec<char> = Vec::new();
    let mut i: usize = from;
    while i < to
        invariant
            from <= i <= to <= s@.len(),
            out@ =~= s@.subrange(from as int, i as int),
        decreases to - i,
    {
        out.push(s[i]);
        assert(out@ =~= s@.subrange(from as int, i + 1));
        i = i + 1;
    }
    out
}

/// Split a character vector into the pieces between occurrences of `sep`,
/// materialized as strings.
pub fn split_chars(s: &Vec<char>, sep: char) -> (r: Vec<String>)
    ensures
        r@.len() == split_on(s@, sep).len(),
        forall|i: int| 0 <= i < r@.len() ==> r@[i]@ == split_on(s@, sep)[i],
    decreases s@.len(),
{
    let n = s.len();
    let mut i: usize = 0;
    while i < n && s[i] != sep
        invariant
            0 <= i <= n,
            n == s@.len(),
            forall|j: int| 0 <= j < i ==> s@[j] != sep,
        decreases n - i,
    {
        i = i + 1;
    }
    if i == n {
        proof {
            lemma_find_char_none(s@, sep);
        }
        let whole = chars_string(s);
        let mut out: Vec<String> = Vec::new();
        out.push(whole);
        return out;
    }
    proof {
        lemma_find_char_at(s@, sep, i as int);
    }
    let head = sub_vec(s, 0, i);
    let tail = sub_vec(s, i + 1, n);
    let head_s = chars_string(&head);
    let mut rest = split_chars(&tail, sep);
    let mut out: Vec<String> = Vec::new();
    out.push(head_s);
    let ghost restv = rest@;
    out.append(&mut rest);
    proof {
        assert(out@ =~= seq![head_s] + restv);
        assert(forall|j: int| 1 <= j < out@.len() ==> out@[j] == restv[j - 1]);
    }
    out
}


/// A copy of a list of strings.
pub fn clone_strings(v: &Vec<String>) -> (r: Vec<String>)
    ensures
        r@ == v@,
{
    let n = v.len();
    let mut out: Vec<String> = Vec::new();
    let mut i: usize = 0;
    while i < n
        invariant
            0 <= i <= n,
            n == v@.len(),
            out@ =~= v@.subrange(0, i as int),
        decreases n - i,
    {
        out.push(v[i].clone());
        assert(out@ =~= v@.subrange(0, i + 1));
        i = i + 1;
    }
    proof {
        assert(v@.subrange(0, n as int) =~= v@);
    }
    out
}


/// Exact equality of two strings.
pub fn str_eq(a: &str, b: &str) -> (r: bool)
    ensures
        r == (a@ == b@),
{
    let av = str_chars(a);
    let bv = str_chars(b);
    let n = av.len();
    if n != bv.len() {
        return false;
    }
    let mut i: usize = 0;
    while i < n
        invariant
            0 <= i <= n,
            n == av@.len() == bv@.len(),
            av@ == a@,
            bv@ == b@,
            forall|j: int| 0 <= j < i ==> a@[j] == b@[j],
        decreases n - i,
    {
        if av[i] != bv[i] {
            return false;
        }
        i = i + 1;
    }
    proof {
        assert(a@ =~= b@);
    }
    true
}


/// Joining after appending one piece appends it behind a separator.
pub proof fn lemma_join_push(parts: Seq<Seq<char>>, k: Seq<char>, sep: char)
    requires
        parts.len() >= 1,
    ensures
        join_with(parts.push(k), sep) == join_with(parts, sep) + seq![sep] + k,
    decreases parts.len(),
{
    let p2 = parts.push(k);
    assert(p2[0] == parts[0]);
    if parts.len() == 1 {
        assert(p2.drop_first() =~= seq![k]);
        assert(join_with(p2, sep) == p2[0] + seq![sep] + join_with(p2.drop_first(), sep));
        assert(join_with(seq![k], sep) == k);
    } else {
        assert(p2.drop_first() =~= parts.drop_first().push(k));
        lemma_join_push(parts.drop_first(), k, sep);
        assert(join_with(p2, sep) == p2[0] + seq![sep] + join_with(p2.drop_first(), sep));
        assert(parts[0] + seq![sep] + (join_with(parts.drop_first(), sep) + seq![sep] + k) =~= (
        parts[0] + seq![sep] + join_with(parts.drop_first(), sep)) + seq![sep] + k);
    }
}

/// A join is at least as long as its first piece.
pub proof fn lemma_join_first_len(parts: Seq<Seq<char>>, sep: char)
    requires
        parts.len() >= 1,
    ensures
        join_with(parts, sep).len() >= parts[0].len(),
    decreases parts.len(),
{
    if parts.len() >= 2 {
        lemma_join_first_len(parts.drop_first(), sep);
    }
}

} // verus!
