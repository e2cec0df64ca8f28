//! Text building blocks shared by the transpilers and validators:
//! decimal rendering, joining, ordering and searching over `Seq<char>`.
use vstd::prelude::*;

verus! {

/// Appends one character (`String::push`).
#[verifier::external_body]
pub(crate) fn push_char(s: &mut String, c: char)
    ensures
        final(s)@ == old(s)@.push(c),
{
    s.push(c);
}

/// The characters of `s`, in order.
pub fn chars_of(s: &str) -> (v: Vec<char>)
    ensures
        v@ == s@,
{
    let mut v: Vec<char> = Vec::new();
    for c in it: s.chars()
        invariant
            v@ == it.seq().take(it.index() as int),
            it.seq() == s@,
    {
        v.push(c);
    }
    v
}

/// A string holding exactly the given characters.
pub fn string_of(v: &Vec<char>) -> (s: String)
    ensures
        s@ == v@,
{
    let mut s = String::new();
    let mut i: usize = 0;
    while i < v.len()
        invariant
            i <= v.len(),
            s@ == v@.take(i as int),
        decreases v.len() - i,
    {
        push_char(&mut s, v[i]);
        i = i + 1;
        assert(s@ =~= v@.take(i as int));
    }
    assert(v@.take(v.len() as int) =~= v@);
    s
}

/// The decimal digit character for `d < 10`.
pub open spec fn digit_char(d: nat) -> char {
    (48 + d) as char
}

/// Decimal rendering of a natural number, most significant digit first.
pub open spec fn decimal(n: nat) -> Seq<char>
    decreases n,
{
    if n < 10 {
        seq![digit_char(n)]
    } else {
        decimal(n / 10).push(digit_char(n % 10))
    }
}

/// Decimal rendering of an integer: `-` before the magnitude of a negative one.
pub open spec fn int_decimal(i: int) -> Seq<char> {
    if i < 0 {
        seq!['-'] + decimal((-i) as nat)
    } else {
        decimal(i as nat)
    }
}

/// Appends the decimal rendering of `n`.
pub fn push_decimal(s: &mut String, n: u64)
    ensures
        final(s)@ == old(s)@ + decimal(n as nat),
    decreases n,
{
    if n >= 10 {
        push_decimal(s, n / 10);
    }
    let d: u8 = (n % 10) as u8;
    let c: char = (48u8 + d) as char;
    assert(c == digit_char((n % 10) as nat));
    push_char(s, c);
}

/// Appends the decimal rendering of a signed integer.
pub fn push_int_decimal(s: &mut String, i: i64)
    ensures
        final(s)@ == old(s)@ + int_decimal(i as int),
{
    if i < 0 {
        push_char(s, '-');
        let m: u64 = if i == i64::MIN {
            9223372036854775808u64
        } else {
            (-i) as u64
        };
        push_decimal(s, m);
    } else {
        push_decimal(s, i as u64);
    }
}

/// `list` joined with `sep` between consecutive elements.
pub open spec fn join(list: Seq<Seq<char>>, sep: Seq<char>) -> Seq<char>
    decreases list.len(),
{
    if list.len() == 0 {
        Seq::empty()
    } else if list.len() == 1 {
        list[0]
    } else {
        join(list.drop_last(), sep) + sep + list.last()
    }
}

/// Joins the strings of `list` with `sep`.
pub fn join_strings(list: &Vec<String>, sep: &str) -> (res: String)
    ensures
        res@ == join(list@.map_values(|s: String| s@), sep@),
{
    let ghost views = list@.map_values(|s: String| s@);
    let mut res = String::new();
    let mut i: usize = 0;
    while i < list.len()
        invariant
            i <= list.len(),
            views == list@.map_values(|s: String| s@),
            res@ == join(views.take(i as int), sep@),
        decreases list.len() - i,
    {
        if i > 0 {
            res.append(sep);
        }
        res.append(list[i].as_str());
        assert(views.take(i + 1).drop_last() =~= views.take(i as int));
        i = i + 1;
    }
    assert(views.take(list.len() as int) =~= views);
    res
}

/// Strict lexicographic order on character sequences (by code point,
/// which is also the byte order of their UTF-8 encodings).
pub open spec fn seq_lt(a: Seq<char>, b: Seq<char>) -> bool
    decreases a.len(),
{
    if b.len() == 0 {
        false
    } else if a.len() == 0 {
        true
    } else if a[0] != b[0] {
        a[0] < b[0]
    } else {
        seq_lt(a.drop_first(), b.drop_first())
    }
}

/// Whether `a` sorts strictly before `b`.
pub fn str_lt(a: &str, b: &str) -> (r: bool)
    ensures
        r == seq_lt(a@, b@),
{
    let va = chars_of(a);
    let vb = chars_of(b);
    let mut i: usize = 0;
    assert(a@.skip(0) =~= a@ && b@.skip(0) =~= b@);
    while i < va.len() && i < vb.len() && va[i] == vb[i]
        invariant
            i <= va.len(),
            i <= vb.len(),
            va@ == a@,
            vb@ == b@,
            seq_lt(a@, b@) == seq_lt(a@.skip(i as int), b@.skip(i as int)),
        decreases va.len() - i,
    {
        assert(a@.skip(i as int).drop_first() =~= a@.skip(i + 1));
        assert(b@.skip(i as int).drop_first() =~= b@.skip(i + 1));
        i = i + 1;
    }
    let ghost sa = a@.skip(i as int);
    let ghost sb = b@.skip(i as int);
    if i == vb.len() {
        assert(sb.len() == 0);
        false
    } else if i == va.len() {
        assert(sa.len() == 0 && sb.len() > 0);
        true
    } else {
        assert(sa[0] == va@[i as int] && sb[0] == vb@[i as int]);
        va[i] < vb[i]
    }
}

/// Lexicographic order is irreflexive, transitive and total on distinct
/// sequences.
pub proof fn lemma_seq_lt_irreflexive(a: Seq<char>)
    ensures
        !seq_lt(a, a),
    decreases a.len(),
{
    if a.len() > 0 {
        lemma_seq_lt_irreflexive(a.drop_first());
    }
}

pub proof fn lemma_seq_lt_total(a: Seq<char>, b: Seq<char>)
    ensures
        a != b ==> seq_lt(a, b) || seq_lt(b, a),
        !(seq_lt(a, b) && seq_lt(b, a)),
    decreases a.len(),
{
    if a.len() > 0 && b.len() > 0 && a[0] == b[0] {
        lemma_seq_lt_total(a.drop_first(), b.drop_first());
        if a.drop_first() == b.drop_first() {
            assert(a =~= seq![a[0]] + a.drop_first());
            assert(b =~= seq![b[0]] + b.drop_first());
        }
    } else if a.len() == 0 && b.len() == 0 {
        assert(a =~= b);
    }
}

pub proof fn lemma_seq_lt_transitive(a: Seq<char>, b: Seq<char>, c: Seq<char>)
    requires
        seq_lt(a, b),
        seq_lt(b, c),
    ensures
        seq_lt(a, c),
    decreases a.len(),
{
    if a.len() > 0 && b.len() > 0 && c.len() > 0 && a[0] == b[0] && b[0] == c[0] {
        lemma_seq_lt_transitive(a.drop_first(), b.drop_first(), c.drop_first());
    }
}

/// `s` with `x` inserted at its sorted position, unless already present.
pub open spec fn insert_sorted(s: Seq<Seq<char>>, x: Seq<char>) -> Seq<Seq<char>>
    decreases s.len(),
{
    if s.len() == 0 {
        seq![x]
    } else if s[0] == x {
        s
    } else if seq_lt(x, s[0]) {
        seq![x] + s
    } else {
        seq![s[0]] + insert_sorted(s.drop_first(), x)
    }
}

/// The distinct elements of `s` in ascending order.
pub open spec fn sort_dedup(s: Seq<Seq<char>>) -> Seq<Seq<char>>
    decreases s.len(),
{
    if s.len() == 0 {
        Seq::empty()
    } else {
        insert_sorted(sort_dedup(s.drop_last()), s.last())
    }
}

/// Inserts `x` into an ascending list of strings, keeping it duplicate-free.
pub fn insert_sorted_string(v: &mut Vec<String>, x: String)
    ensures
        final(v)@.map_values(|s: String| s@) == insert_sorted(
            old(v)@.map_values(|s: String| s@),
            x@,
        ),
{
    let ghost old_views = v@.map_values(|s: String| s@);
    let mut i: usize = 0;
    assert(old_views.skip(0) =~= old_views);
    assert(old_views.take(0) + old_views =~= old_views);
    while i < v.len()
        invariant
            i <= v.len(),
            v@ == old(v)@,
            old_views == v@.map_values(|s: String| s@),
            insert_sorted(old_views, x@) == old_views.take(i as int) + insert_sorted(
                old_views.skip(i as int),
                x@,
            ),
        decreases v.len() - i,
    {
        let ghost rest = old_views.skip(i as int);
        assert(rest[0] == v@[i as int]@);
        if v[i] == x {
            assert(v@[i as int]@ == x@);
            assert(old_views =~= old_views.take(i as int) + rest);
            return;
        }
        if str_lt(x.as_str(), v[i].as_str()) {
            v.insert(i, x);
            proof {
                assert(v@.map_values(|s: String| s@) =~= old_views.take(i as int) + (seq![x@]
                    + rest));
            }
            return;
        }
        assert(rest.drop_first() =~= old_views.skip(i + 1));
        assert(old_views.take(i as int) + (seq![rest[0]] + insert_sorted(
            rest.drop_first(),
            x@,
        )) =~= old_views.take(i + 1) + insert_sorted(old_views.skip(i + 1), x@));
        i = i + 1;
    }
    v.push(x);
    proof {
        assert(old_views.skip(i as int) =~= Seq::<Seq<char>>::empty());
        assert(v@.map_values(|s: String| s@) =~= old_views.take(i as int) + seq![x@]);
    }
}

} // verus!

verus! {

/// The views of a list of strings.
pub open spec fn views(v: Seq<String>) -> Seq<Seq<char>> {
    v.map_values(|s: String| s@)
}

pub proof fn lemma_views_push(v: Seq<String>, x: String)
    ensures
        views(v.push(x)) == views(v).push(x@),
{
    assert(views(v.push(x)) =~= views(v).push(x@));
}

/// Whether `v` holds a string equal to `s`.
pub fn contains_string(v: &Vec<String>, s: &String) -> (r: bool)
    ensures
        r == views(v@).contains(s@),
{
    let mut i: usize = 0;
    while i < v.len()
        invariant
            i <= v.len(),
            forall|j: int| 0 <= j < i ==> v@[j]@ != s@,
        decreases v.len() - i,
    {
        if v[i] == *s {
            assert(views(v@)[i as int] == s@);
            return true;
        }
        i = i + 1;
    }
    assert(!views(v@).contains(s@)) by {
        if views(v@).contains(s@) {
            let j = choose|j: int| 0 <= j < views(v@).len() && views(v@)[j] == s@;
            assert(v@[j]@ == s@);
        }
    }
    false
}

} // verus!

verus! {

/// Index of the first occurrence of `x` in `s`.
pub open spec fn first_index(s: Seq<Seq<char>>, x: Seq<char>) -> Option<int>
    decreases s.len(),
{
    if s.len() == 0 {
        None
    } else if s[0] == x {
        Some(0)
    } else {
        match first_index(s.drop_first(), x) {
            Some(k) => Some(k + 1),
            None => None,
        }
    }
}

pub proof fn lemma_first_index_at(s: Seq<Seq<char>>, x: Seq<char>, k: int)
    requires
        0 <= k < s.len(),
        s[k] == x,
        forall|j: int| 0 <= j < k ==> s[j] != x,
    ensures
        first_index(s, x) == Some(k),
    decreases k,
{
    if k > 0 {
        lemma_first_index_at(s.drop_first(), x, k - 1);
    }
}

pub proof fn lemma_first_index_none(s: Seq<Seq<char>>, x: Seq<char>)
    requires
        forall|j: int| 0 <= j < s.len() ==> s[j] != x,
    ensures
        first_index(s, x) is None,
    decreases s.len(),
{
    if s.len() > 0 {
        lemma_first_index_none(s.drop_first(), x);
    }
}

/// When `x` has no first position, no position holds it.
pub proof fn lemma_first_index_none_means(s: Seq<Seq<char>>, x: Seq<char>, j: int)
    requires
        first_index(s, x) is None,
        0 <= j < s.len(),
    ensures
        s[j] != x,
    decreases s.len(),
{
    if j > 0 {
        lemma_first_index_none_means(s.drop_first(), x, j - 1);
    }
}

pub proof fn lemma_first_index_bounds(s: Seq<Seq<char>>, x: Seq<char>)
    ensures
        first_index(s, x) matches Some(k) ==> 0 <= k < s.len() && s[k] == x,
    decreases s.len(),
{
    if s.len() > 0 {
        lemma_first_index_bounds(s.drop_first(), x);
    }
}

/// Position of the first string equal to `x`.
pub fn index_of_string(v: &Vec<String>, x: &String) -> (r: Option<usize>)
    ensures
        r matches Some(k) ==> first_index(views(v@), x@) == Some(k as int),
        r is None ==> first_index(views(v@), x@) is None,
{
    let mut i: usize = 0;
    while i < v.len()
        invariant
            i <= v.len(),
            forall|j: int| 0 <= j < i ==> views(v@)[j] != x@,
        decreases v.len() - i,
    {
        if v[i] == *x {
            proof {
                lemma_first_index_at(views(v@), x@, i as int);
            }
            return Some(i);
        }
        i = i + 1;
    }
    proof {
        lemma_first_index_none(views(v@), x@);
    }
    None
}

/// Appending `x` to a sequence inserts it into the sorted distinct list.
pub proof fn lemma_sort_dedup_push(s: Seq<Seq<char>>, x: Seq<char>)
    ensures
        sort_dedup(s.push(x)) == insert_sorted(sort_dedup(s), x),
{
    assert(s.push(x).drop_last() =~= s);
}

} // verus!

verus! {

/// The first message of a sequence of optional messages: the first check
/// that failed, or `None` when all passed.
pub open spec fn first_some(s: Seq<Option<Seq<char>>>) -> Option<Seq<char>>
    decreases s.len(),
{
    if s.len() == 0 {
        None
    } else {
        match first_some(s.drop_last()) {
            Some(e) => Some(e),
            None => s.last(),
        }
    }
}

pub proof fn lemma_first_some_step(s: Seq<Option<Seq<char>>>, i: int)
    requires
        0 <= i < s.len(),
        first_some(s.take(i)) is None,
    ensures
        first_some(s.take(i + 1)) == s[i],
{
    assert(s.take(i + 1).drop_last() =~= s.take(i));
}

/// Once a prefix has failed, the whole sequence fails the same way.
pub proof fn lemma_first_some_prefix(s: Seq<Option<Seq<char>>>, k: int)
    requires
        0 <= k <= s.len(),
        first_some(s.take(k)) is Some,
    ensures
        first_some(s) == first_some(s.take(k)),
    decreases s.len() - k,
{
    if k < s.len() {
        assert(s.take(k + 1).drop_last() =~= s.take(k));
        lemma_first_some_prefix(s, k + 1);
    } else {
        assert(s.take(k) =~= s);
    }
}

/// The check at `i` decides when every earlier check passed.
pub proof fn lemma_first_some_at(s: Seq<Option<Seq<char>>>, i: int)
    requires
        0 <= i < s.len(),
        first_some(s.take(i)) is None,
        s[i] is Some,
    ensures
        first_some(s) == s[i],
{
    lemma_first_some_step(s, i);
    lemma_first_some_prefix(s, i + 1);
}

pub proof fn lemma_first_some_none(s: Seq<Option<Seq<char>>>)
    requires
        first_some(s.take(s.len() as int)) is None,
    ensures
        first_some(s) is None,
{
    assert(s.take(s.len() as int) =~= s);
}

} // verus!
