use vstd::prelude::*;

verus! {

// ---------------------------------------------------------------------------
// Mathematical model of text: a text is a `Seq<char>`.
// ---------------------------------------------------------------------------

/// `char::is_whitespace`: the Unicode `White_Space` property.
pub open spec fn is_ws(c: char) -> bool {
    let u = c as u32;
    ||| 0x09 <= u <= 0x0D
    ||| u == 0x20
    ||| u == 0x85
    ||| u == 0xA0
    ||| u == 0x1680
    ||| 0x2000 <= u <= 0x200A
    ||| u == 0x2028
    ||| u == 0x2029
    ||| u == 0x202F
    ||| u == 0x205F
    ||| u == 0x3000
}

/// Number of leading whitespace characters of `s`.
pub open spec fn ws_prefix_len(s: Seq<char>) -> nat
    decreases s.len(),
{
    if s.len() > 0 && is_ws(s[0]) {
        1 + ws_prefix_len(s.drop_first())
    } else {
        0
    }
}

/// Number of trailing whitespace characters of `s`.
pub open spec fn ws_suffix_len(s: Seq<char>) -> nat
    decreases s.len(),
{
    if s.len() > 0 && is_ws(s.last()) {
        1 + ws_suffix_len(s.drop_last())
    } else {
        0
    }
}

/// `str::trim_start`.
pub open spec fn trim_start(s: Seq<char>) -> Seq<char> {
    s.skip(ws_prefix_len(s) as int)
}

/// `str::trim_end`.
pub open spec fn trim_end(s: Seq<char>) -> Seq<char> {
    s.take(s.len() - ws_suffix_len(s))
}

/// `str::trim`.
pub open spec fn trim(s: Seq<char>) -> Seq<char> {
    trim_end(trim_start(s))
}

/// `s` begins with `p`.
pub open spec fn starts_with<A>(s: Seq<A>, p: Seq<A>) -> bool {
    p.len() <= s.len() && s.take(p.len() as int) == p
}

/// `s` ends with `p`.
pub open spec fn ends_with<A>(s: Seq<A>, p: Seq<A>) -> bool {
    p.len() <= s.len() && s.skip(s.len() - p.len()) == p
}

/// `p` occurs in `s` starting at index `i`.
pub open spec fn occurs_at<A>(s: Seq<A>, p: Seq<A>, i: int) -> bool {
    0 <= i && i + p.len() <= s.len() && s.subrange(i, i + p.len()) == p
}

/// First index `>= i` at which `p` occurs in `s`.
pub open spec fn find_from<A>(s: Seq<A>, p: Seq<A>, i: int) -> Option<int>
    decreases s.len() + 1 - i,
{
    if i < 0 || i + p.len() > s.len() {
        None
    } else if occurs_at(s, p, i) {
        Some(i)
    } else {
        find_from(s, p, i + 1)
    }
}

/// `str::find`: the first occurrence of `p` in `s`.
pub open spec fn find<A>(s: Seq<A>, p: Seq<A>) -> Option<int> {
    find_from(s, p, 0)
}

/// `p` occurs somewhere in `s`.
pub open spec fn contains<A>(s: Seq<A>, p: Seq<A>) -> bool {
    exists|i: int| occurs_at(s, p, i)
}

/// Last index `<= i` at which `p` occurs in `s`.
pub open spec fn rfind_upto<A>(s: Seq<A>, p: Seq<A>, i: int) -> Option<int>
    decreases i + 1,
{
    if i < 0 {
        None
    } else if occurs_at(s, p, i) {
        Some(i)
    } else {
        rfind_upto(s, p, i - 1)
    }
}

/// `str::rfind`: the last occurrence of `p` in `s`.
pub open spec fn rfind<A>(s: Seq<A>, p: Seq<A>) -> Option<int> {
    rfind_upto(s, p, s.len() - p.len())
}

/// Index of the first `x` in `s`, or `s.len()` when there is none.
pub open spec fn index_of<A>(s: Seq<A>, x: A) -> nat
    decreases s.len(),
{
    if s.len() == 0 || s[0] == x {
        0
    } else {
        1 + index_of(s.drop_first(), x)
    }
}

/// Removes one `'\r'` that ends a line terminated by `"\r\n"`.
pub open spec fn strip_cr(l: Seq<char>) -> Seq<char> {
    if l.len() > 0 && l.last() == '\r' {
        l.drop_last()
    } else {
        l
    }
}

/// `str::lines`: lines end at `"\n"` or `"\r\n"`; the final line ending is optional.
pub open spec fn lines_of(s: Seq<char>) -> Seq<Seq<char>>
    decreases s.len(),
{
    if s.len() == 0 {
        seq![]
    } else {
        let k = index_of(s, '\n');
        if k >= s.len() {
            seq![s]
        } else {
            proof {
                lemma_index_of_bound(s, '\n');
            }
            seq![strip_cr(s.take(k as int))] + lines_of(s.skip(k + 1 as int))
        }
    }
}

/// Each line followed by `'\n'`, concatenated.
pub open spec fn join_lines(ls: Seq<Seq<char>>) -> Seq<char>
    decreases ls.len(),
{
    if ls.len() == 0 {
        seq![]
    } else {
        join_lines(ls.drop_last()) + ls.last() + seq!['\n']
    }
}

/// The views of a sequence of character vectors.
pub open spec fn views(v: Seq<Vec<char>>) -> Seq<Seq<char>> {
    v.map_values(|l: Vec<char>| l@)
}

/// The views of a sequence of strings.
pub open spec fn string_views(v: Seq<String>) -> Seq<Seq<char>> {
    v.map_values(|l: String| l@)
}

// ---------------------------------------------------------------------------
// Lemmas
// ---------------------------------------------------------------------------

pub proof fn lemma_index_of_bound<A>(s: Seq<A>, x: A)
    ensures
        index_of(s, x) <= s.len(),
        index_of(s, x) < s.len() ==> s[index_of(s, x) as int] == x,
        forall|j: int| 0 <= j < index_of(s, x) ==> s[j] != x,
    decreases s.len(),
{
    if s.len() > 0 && s[0] != x {
        lemma_index_of_bound(s.drop_first(), x);
        assert forall|j: int| 0 <= j < index_of(s, x) implies s[j] != x by {
            if j > 0 {
                assert(s[j] == s.drop_first()[j - 1]);
            }
        }
    }
}

pub proof fn lemma_index_of_is<A>(s: Seq<A>, x: A, k: int)
    requires
        0 <= k <= s.len(),
        forall|j: int| 0 <= j < k ==> s[j] != x,
        k == s.len() || s[k] == x,
    ensures
        index_of(s, x) == k,
    decreases k,
{
    if k > 0 {
        lemma_index_of_is(s.drop_first(), x, k - 1);
    }
}

pub proof fn lemma_ws_prefix_len_is(s: Seq<char>, k: int)
    requires
        0 <= k <= s.len(),
        forall|j: int| 0 <= j < k ==> is_ws(#[trigger] s[j]),
        k == s.len() || !is_ws(s[k]),
    ensures
        ws_prefix_len(s) == k,
    decreases k,
{
    if k > 0 {
        assert forall|j: int| 0 <= j < k - 1 implies is_ws(#[trigger] s.drop_first()[j]) by {
            assert(s.drop_first()[j] == s[j + 1]);
        }
        lemma_ws_prefix_len_is(s.drop_first(), k - 1);
    }
}

pub proof fn lemma_ws_suffix_len_is(s: Seq<char>, k: int)
    requires
        0 <= k <= s.len(),
        forall|j: int| s.len() - k <= j < s.len() ==> is_ws(#[trigger] s[j]),
        k == s.len() || !is_ws(s[s.len() - k - 1]),
    ensures
        ws_suffix_len(s) == k,
    decreases k,
{
    if k > 0 {
        assert forall|j: int| s.drop_last().len() - (k - 1) <= j < s.drop_last().len()
            implies is_ws(#[trigger] s.drop_last()[j]) by {
            assert(s.drop_last()[j] == s[j]);
        }
        lemma_ws_suffix_len_is(s.drop_last(), k - 1);
    }
}

pub proof fn lemma_ws_prefix_len_bound(s: Seq<char>)
    ensures
        ws_prefix_len(s) <= s.len(),
        forall|j: int| 0 <= j < ws_prefix_len(s) ==> is_ws(#[trigger] s[j]),
        ws_prefix_len(s) < s.len() ==> !is_ws(s[ws_prefix_len(s) as int]),
    decreases s.len(),
{
    if s.len() > 0 && is_ws(s[0]) {
        lemma_ws_prefix_len_bound(s.drop_first());
        assert forall|j: int| 0 <= j < ws_prefix_len(s) implies is_ws(#[trigger] s[j]) by {
            if j > 0 {
                assert(s[j] == s.drop_first()[j - 1]);
            }
        }
    }
}

pub proof fn lemma_ws_suffix_len_bound(s: Seq<char>)
    ensures
        ws_suffix_len(s) <= s.len(),
        forall|j: int| s.len() - ws_suffix_len(s) <= j < s.len() ==> is_ws(#[trigger] s[j]),
        ws_suffix_len(s) < s.len() ==> !is_ws(s[s.len() - ws_suffix_len(s) - 1]),
    decreases s.len(),
{
    if s.len() > 0 && is_ws(s.last()) {
        lemma_ws_suffix_len_bound(s.drop_last());
        assert forall|j: int| s.len() - ws_suffix_len(s) <= j < s.len() implies is_ws(
            #[trigger] s[j],
        ) by {
            if j < s.len() - 1 {
                assert(s[j] == s.drop_last()[j]);
            }
        }
    }
}

pub proof fn lemma_find_from_is<A>(s: Seq<A>, p: Seq<A>, i: int, k: int)
    requires
        0 <= i <= k,
        forall|j: int| i <= j < k ==> !occurs_at(s, p, j),
        occurs_at(s, p, k) || k + p.len() > s.len(),
    ensures
        find_from(s, p, i) == (if k + p.len() > s.len() { None::<int> } else { Some(k) }),
    decreases k - i,
{
    if i < k {
        assert(!occurs_at(s, p, i));
        lemma_find_from_is(s, p, i + 1, k);
    }
}

pub proof fn lemma_find_from_none_or_some<A>(s: Seq<A>, p: Seq<A>, i: int)
    requires
        0 <= i,
    ensures
        find_from(s, p, i) matches Some(k) ==> i <= k && occurs_at(s, p, k) && forall|j: int|
            i <= j < k ==> !occurs_at(s, p, j),
        find_from(s, p, i) is None ==> forall|j: int| i <= j ==> !occurs_at(s, p, j),
    decreases s.len() + 1 - i,
{
    if i + p.len() <= s.len() && !occurs_at(s, p, i) {
        lemma_find_from_none_or_some(s, p, i + 1);
    }
}

pub proof fn lemma_rfind_upto_is<A>(s: Seq<A>, p: Seq<A>, i: int, k: int)
    requires
        k <= i,
        -1 <= k,
        forall|j: int| k < j <= i ==> !occurs_at(s, p, j),
        k == -1 || occurs_at(s, p, k),
    ensures
        rfind_upto(s, p, i) == (if k == -1 { None::<int> } else { Some(k) }),
    decreases i - k,
{
    if k < i {
        assert(!occurs_at(s, p, i));
        lemma_rfind_upto_is(s, p, i - 1, k);
    }
}

pub proof fn lemma_rfind_upto_bound<A>(s: Seq<A>, p: Seq<A>, i: int)
    ensures
        rfind_upto(s, p, i) matches Some(k) ==> k <= i && occurs_at(s, p, k),
    decreases i + 1,
{
    if i >= 0 && !occurs_at(s, p, i) {
        lemma_rfind_upto_bound(s, p, i - 1);
    }
}

/// `join_lines` of a pushed sequence appends one line.
pub proof fn lemma_join_push(ls: Seq<Seq<char>>, l: Seq<char>)
    ensures
        join_lines(ls.push(l)) == join_lines(ls) + l + seq!['\n'],
{
    assert(ls.push(l).drop_last() == ls);
}

/// `join_lines` distributes over concatenation.
pub proof fn lemma_join_concat(a: Seq<Seq<char>>, b: Seq<Seq<char>>)
    ensures
        join_lines(a + b) == join_lines(a) + join_lines(b),
    decreases b.len(),
{
    if b.len() == 0 {
        assert(a + b == a);
        assert(join_lines(b) == Seq::<char>::empty());
        assert(join_lines(a) + join_lines(b) == join_lines(a));
    } else {
        lemma_join_concat(a, b.drop_last());
        assert((a + b).drop_last() == a + b.drop_last());
        assert((a + b).last() == b.last());
        assert(join_lines(a + b) == join_lines(a + b.drop_last()) + b.last() + seq!['\n']);
        assert(join_lines(a) + join_lines(b) == join_lines(a) + (join_lines(b.drop_last())
            + b.last() + seq!['\n']));
    }
}

// ---------------------------------------------------------------------------
// Executable helpers
// ---------------------------------------------------------------------------

/// Appends one character to a `String` (`String::push`).
/// Trusted: the new contents are the old contents followed by `c`.
#[verifier::external_body]
pub(crate) fn push_char(s: &mut String, c: char)
    ensures
        final(s)@ == old(s)@.push(c),
{
    s.push(c);
}

/// The characters of `s`, in order.
pub fn chars_of(s: &str) -> (r: Vec<char>)
    ensures
        r@ == s@,
{
    let mut r: Vec<char> = Vec::new();
    for c in it: s.chars()
        invariant
            r@ == it.seq().take(it.index()),
            it.seq() == s@,
    {
        r.push(c);
        assert(it.seq().take(it.index() + 1) == it.seq().take(it.index() as int).push(c));
    }
    r
}

/// Appends the characters `v[lo..hi]` to `s`.
pub fn append_range(s: &mut String, v: &Vec<char>, lo: usize, hi: usize)
    requires
        lo <= hi <= v.len(),
    ensures
        final(s)@ == old(s)@ + v@.subrange(lo as int, hi as int),
{
    let mut i: usize = lo;
    while i < hi
        invariant
            lo <= i <= hi <= v.len(),
            s@ == old(s)@ + v@.subrange(lo as int, i as int),
        decreases hi - i,
    {
        push_char(s, v[i]);
        assert(v@.subrange(lo as int, i + 1) == v@.subrange(lo as int, i as int).push(v@[i as int]));
        i += 1;
    }
}

/// Appends all characters of `v` to `s`.
pub fn append_chars(s: &mut String, v: &Vec<char>)
    ensures
        final(s)@ == old(s)@ + v@,
{
    append_range(s, v, 0, v.len());
    assert(v@.subrange(0, v@.len() as int) == v@);
}

/// Appends the characters of `v` and then a line feed to `s`.
pub fn append_line(s: &mut String, v: &Vec<char>)
    ensures
        final(s)@ == old(s)@ + v@ + seq!['\n'],
{
    append_chars(s, v);
    push_char(s, '\n');
}

/// A `String` holding the characters of `v`.
pub fn string_of(v: &Vec<char>) -> (r: String)
    ensures
        r@ == v@,
{
    let mut r = String::new();
    append_chars(&mut r, v);
    r
}

/// The characters `v[lo..hi]`.
pub fn subvec(v: &Vec<char>, lo: usize, hi: usize) -> (r: Vec<char>)
    requires
        lo <= hi <= v.len(),
    ensures
        r@ == v@.subrange(lo as int, hi as int),
{
    let mut r: Vec<char> = Vec::new();
    let mut i: usize = lo;
    while i < hi
        invariant
            lo <= i <= hi <= v.len(),
            r@ == v@.subrange(lo as int, i as int),
        decreases hi - i,
    {
        r.push(v[i]);
        assert(v@.subrange(lo as int, i + 1) == v@.subrange(lo as int, i as int).push(v@[i as int]));
        i += 1;
    }
    r
}

/// `char::is_whitespace`.
pub fn is_whitespace(c: char) -> (r: bool)
    ensures
        r == is_ws(c),
{
    let u = c as u32;
    (0x09 <= u && u <= 0x0D) || u == 0x20 || u == 0x85 || u == 0xA0 || u == 0x1680 || (0x2000
        <= u && u <= 0x200A) || u == 0x2028 || u == 0x2029 || u == 0x202F || u == 0x205F || u
        == 0x3000
}

/// Index of the first non-whitespace character of `v[lo..hi]` (or `hi`).
pub fn skip_ws(v: &Vec<char>, lo: usize, hi: usize) -> (r: usize)
    requires
        lo <= hi <= v.len(),
    ensures
        lo <= r <= hi,
        r - lo == ws_prefix_len(v@.subrange(lo as int, hi as int)),
{
    let mut i = lo;
    while i < hi && is_whitespace(v[i])
        invariant
            lo <= i <= hi <= v.len(),
            forall|j: int| lo <= j < i ==> is_ws(#[trigger] v@[j]),
        decreases hi - i,
    {
        i += 1;
    }
    let ghost s = v@.subrange(lo as int, hi as int);
    assert forall|j: int| 0 <= j < i - lo implies is_ws(#[trigger] s[j]) by {
        assert(s[j] == v@[lo + j]);
    }
    proof {
        lemma_ws_prefix_len_is(s, i - lo);
    }
    i
}

/// End of `v[lo..hi]` once trailing whitespace is removed.
pub fn skip_ws_back(v: &Vec<char>, lo: usize, hi: usize) -> (r: usize)
    requires
        lo <= hi <= v.len(),
    ensures
        lo <= r <= hi,
        hi - r == ws_suffix_len(v@.subrange(lo as int, hi as int)),
{
    let mut i = hi;
    while i > lo && is_whitespace(v[i - 1])
        invariant
            lo <= i <= hi <= v.len(),
            forall|j: int| i <= j < hi ==> is_ws(#[trigger] v@[j]),
        decreases i - lo,
    {
        i -= 1;
    }
    let ghost s = v@.subrange(lo as int, hi as int);
    assert forall|j: int| s.len() - (hi - i) <= j < s.len() implies is_ws(#[trigger] s[j]) by {
        assert(s[j] == v@[lo + j]);
    }
    proof {
        if i > lo {
            assert(s[s.len() - (hi - i) - 1] == v@[i - 1]);
        }
        lemma_ws_suffix_len_is(s, hi - i);
    }
    i
}

/// Bounds of `trim(v[lo..hi])` within `v`.
pub fn trim_bounds(v: &Vec<char>, lo: usize, hi: usize) -> (r: (usize, usize))
    requires
        lo <= hi <= v.len(),
    ensures
        lo <= r.0 <= r.1 <= hi,
        v@.subrange(r.0 as int, r.1 as int) == trim(v@.subrange(lo as int, hi as int)),
{
    let a = skip_ws(v, lo, hi);
    let b = skip_ws_back(v, a, hi);
    let ghost s = v@.subrange(lo as int, hi as int);
    assert(trim_start(s) == v@.subrange(a as int, hi as int));
    assert(trim_end(v@.subrange(a as int, hi as int)) == v@.subrange(a as int, b as int));
    (a, b)
}

/// `trim` of a character vector.
pub fn trim_vec(v: &Vec<char>) -> (r: Vec<char>)
    ensures
        r@ == trim(v@),
{
    let (a, b) = trim_bounds(v, 0, v.len());
    assert(v@.subrange(0, v@.len() as int) == v@);
    subvec(v, a, b)
}

/// `trim_end` of a character vector.
pub fn trim_end_vec(v: &Vec<char>) -> (r: Vec<char>)
    ensures
        r@ == trim_end(v@),
{
    let b = skip_ws_back(v, 0, v.len());
    assert(v@.subrange(0, v@.len() as int) == v@);
    subvec(v, 0, b)
}

/// Whether `p` occurs in `v` at index `i`.
pub fn occurs_at_chars(v: &Vec<char>, p: &[char], i: usize) -> (r: bool)
    ensures
        r == occurs_at(v@, p@, i as int),
{
    if i > v.len() || p.len() > v.len() - i {
        return false;
    }
    let mut k: usize = 0;
    while k < p.len()
        invariant
            i + p@.len() <= v@.len(),
            k <= p@.len(),
            forall|j: int| 0 <= j < k ==> v@[i + j] == p@[j],
        decreases p.len() - k,
    {
        assert(i + k < v.len());
        if v[i + k] != p[k] {
            assert(v@.subrange(i as int, i + p@.len())[k as int] != p@[k as int]);
            return false;
        }
        k += 1;
    }
    assert(v@.subrange(i as int, i + p@.len()) == p@);
    true
}

/// Whether `p` occurs in `v` at index `i`.
pub fn occurs_at_bytes(v: &[u8], p: &[u8], i: usize) -> (r: bool)
    ensures
        r == occurs_at(v@, p@, i as int),
{
    if i > v.len() || p.len() > v.len() - i {
        return false;
    }
    let mut k: usize = 0;
    while k < p.len()
        invariant
            i + p@.len() <= v@.len(),
            k <= p@.len(),
            forall|j: int| 0 <= j < k ==> v@[i + j] == p@[j],
        decreases p.len() - k,
    {
        assert(i + k < v.len());
        if v[i + k] != p[k] {
            assert(v@.subrange(i as int, i + p@.len())[k as int] != p@[k as int]);
            return false;
        }
        k += 1;
    }
    assert(v@.subrange(i as int, i + p@.len()) == p@);
    true
}

/// First occurrence of `p` in `v` at an index `>= from`.
pub fn find_chars(v: &Vec<char>, p: &[char], from: usize) -> (r: Option<usize>)
    ensures
        match r {
            Some(k) => find_from(v@, p@, from as int) == Some(k as int),
            None => find_from(v@, p@, from as int) is None,
        },
{
    if from > v.len() || p.len() > v.len() - from {
        proof {
            lemma_find_from_is(v@, p@, from as int, from as int);
        }
        return None;
    }
    if p.len() == 0 {
        assert(v@.subrange(from as int, from as int) == p@);
        proof {
            lemma_find_from_is(v@, p@, from as int, from as int);
        }
        return Some(from);
    }
    let mut i = from;
    while p.len() <= v.len() - i
        invariant
            from <= i <= v.len(),
            0 < p@.len(),
            forall|j: int| from <= j < i ==> !occurs_at(v@, p@, j),
        decreases v.len() - i,
    {
        if occurs_at_chars(v, p, i) {
            proof {
                lemma_find_from_is(v@, p@, from as int, i as int);
            }
            return Some(i);
        }
        i += 1;
    }
    proof {
        lemma_find_from_is(v@, p@, from as int, i as int);
    }
    None
}

/// Last occurrence of `p` in `v[..hi]`.
pub fn rfind_chars(v: &Vec<char>, p: &[char], hi: usize) -> (r: Option<usize>)
    requires
        hi <= v.len(),
    ensures
        match r {
            Some(k) => rfind(v@.take(hi as int), p@) == Some(k as int),
            None => rfind(v@.take(hi as int), p@) is None,
        },
{
    let ghost s = v@.take(hi as int);
    if p.len() > hi {
        assert(rfind_upto(s, p@, s.len() - p@.len()) is None);
        return None;
    }
    let mut i: usize = hi - p.len();
    loop
        invariant
            i <= hi - p@.len(),
            p@.len() <= hi <= v@.len(),
            s == v@.take(hi as int),
            forall|j: int| i < j <= hi - p@.len() ==> !occurs_at(s, p@, j),
        decreases i,
    {
        assert(s.subrange(i as int, i + p@.len()) == v@.subrange(i as int, i + p@.len()));
        if occurs_at_chars(v, p, i) {
            proof {
                lemma_rfind_upto_is(s, p@, s.len() - p@.len(), i as int);
            }
            return Some(i);
        }
        if i == 0 {
            proof {
                lemma_rfind_upto_is(s, p@, s.len() - p@.len(), -1);
            }
            return None;
        }
        i -= 1;
    }
}


/// Equality of a character vector with a character slice.
pub fn eq_chars(v: &Vec<char>, m: &[char]) -> (r: bool)
    ensures
        r == (v@ == m@),
{
    if v.len() != m.len() {
        return false;
    }
    let r = occurs_at_chars(v, m, 0);
    assert(v@.subrange(0, m@.len() as int) == v@);
    r
}

/// Whether `v` begins with `m`.
pub fn starts_with_chars(v: &Vec<char>, m: &[char]) -> (r: bool)
    ensures
        r == starts_with(v@, m@),
{
    let r = occurs_at_chars(v, m, 0);
    assert(r ==> v@.subrange(0, m@.len() as int) == v@.take(m@.len() as int));
    assert(starts_with(v@, m@) ==> v@.subrange(0, m@.len() as int) == v@.take(m@.len() as int));
    r
}

/// `str::lines` on a character vector.
pub fn split_lines(v: &Vec<char>) -> (r: Vec<Vec<char>>)
    ensures
        views(r@) == lines_of(v@),
{
    let mut r: Vec<Vec<char>> = Vec::new();
    let mut start: usize = 0;
    let mut i: usize = 0;
    assert(v@.skip(0) == v@);
    while i < v.len()
        invariant
            start <= i <= v.len(),
            forall|j: int| start <= j < i ==> v@[j] != '\n',
            lines_of(v@) == views(r@) + lines_of(v@.skip(start as int)),
        decreases v.len() - i,
    {
        if v[i] == '\n' {
            let ghost t = v@.skip(start as int);
            let ghost k = i - start;
            proof {
                lemma_index_of_is(t, '\n', k);
            }
            assert(t.take(k) == v@.subrange(start as int, i as int));
            assert(t.skip(k + 1) == v@.skip(i + 1));
            let mut line = subvec(v, start, i);
            if line.len() > 0 && line[line.len() - 1] == '\r' {
                line.pop();
            }
            assert(line@ == strip_cr(t.take(k)));
            let ghost old_r = r@;
            r.push(line);
            assert(views(r@) == views(old_r).push(line@));
            assert(lines_of(t) == seq![line@] + lines_of(v@.skip(i + 1)));
            assert(views(r@) + lines_of(v@.skip(i + 1)) == views(old_r) + lines_of(t));
            start = i + 1;
        }
        i += 1;
    }
    let ghost t = v@.skip(start as int);
    if start < v.len() {
        proof {
            lemma_index_of_is(t, '\n', t.len() as int);
        }
        let line = subvec(v, start, v.len());
        assert(line@ == t);
        let ghost old_r = r@;
        r.push(line);
        assert(views(r@) == views(old_r).push(line@));
        assert(lines_of(t) == seq![t]);
    } else {
        assert(t.len() == 0);
        assert(views(r@) + lines_of(t) == views(r@));
    }
    r
}

// ---------------------------------------------------------------------------
// Case folding
// ---------------------------------------------------------------------------

/// `c.to_lowercase()` is exactly the character `t`, where `t` is an ASCII
/// character that is not an uppercase letter.  Besides `t` itself only the
/// uppercase ASCII letter of `t`, and for `'k'` the KELVIN SIGN, lowercase to it.
pub open spec fn lowers_to(c: char, t: char) -> bool {
    ||| c == t
    ||| ('a' <= t && t <= 'z' && (c as u32) + 32 == (t as u32))
    ||| (t == 'k' && (c as u32) == 0x212A)
}

/// `s.to_lowercase() == t` for a target `t` made of ASCII characters other
/// than uppercase letters.
pub open spec fn lowercase_eq(s: Seq<char>, t: Seq<char>) -> bool {
    s.len() == t.len() && forall|i: int| 0 <= i < s.len() ==> lowers_to(#[trigger] s[i], t[i])
}

/// `t` occurs at index `i` of `s.to_lowercase()` (same target restriction).
pub open spec fn lowercase_occurs_at(s: Seq<char>, t: Seq<char>, i: int) -> bool {
    0 <= i && i + t.len() <= s.len() && forall|j: int|
        0 <= j < t.len() ==> lowers_to(#[trigger] s[i + j], t[j])
}

/// ASCII lowercase of `c` (`char::to_ascii_lowercase`).
pub open spec fn ascii_lower(c: char) -> char {
    if 'A' <= c && c <= 'Z' {
        ((c as u32) + 32) as char
    } else {
        c
    }
}

/// `str::eq_ignore_ascii_case`.
pub open spec fn eq_ignore_ascii_case(s: Seq<char>, t: Seq<char>) -> bool {
    s.len() == t.len() && forall|i: int| 0 <= i < s.len() ==> ascii_lower(#[trigger] s[i]) == ascii_lower(t[i])
}

/// `str::to_ascii_lowercase`.
pub open spec fn to_ascii_lower(s: Seq<char>) -> Seq<char> {
    s.map_values(|c: char| ascii_lower(c))
}

/// Whether `c.to_lowercase()` is exactly `t`.
pub fn lowers_to_exec(c: char, t: char) -> (r: bool)
    ensures
        r == lowers_to(c, t),
{
    c == t || ('a' <= t && t <= 'z' && (c as u32) + 32 == (t as u32)) || (t == 'k' && (c as u32)
        == 0x212A)
}

/// Whether `v[i..i + t.len()]` lowercases to `t`.
pub fn lowercase_occurs_at_exec(v: &Vec<char>, t: &[char], i: usize) -> (r: bool)
    ensures
        r == lowercase_occurs_at(v@, t@, i as int),
{
    if i > v.len() || t.len() > v.len() - i {
        return false;
    }
    let mut k: usize = 0;
    while k < t.len()
        invariant
            i + t@.len() <= v@.len(),
            k <= t@.len(),
            forall|j: int| 0 <= j < k ==> lowers_to(#[trigger] v@[i + j], t@[j]),
        decreases t.len() - k,
    {
        assert(i + k < v.len());
        if !lowers_to_exec(v[i + k], t[k]) {
            return false;
        }
        k += 1;
    }
    true
}

/// Whether `v` lowercases to `t`.
pub fn lowercase_eq_exec(v: &Vec<char>, t: &[char]) -> (r: bool)
    ensures
        r == lowercase_eq(v@, t@),
{
    if v.len() != t.len() {
        return false;
    }
    let r = lowercase_occurs_at_exec(v, t, 0);
    proof {
        if r {
            assert forall|i: int| 0 <= i < v@.len() implies lowers_to(#[trigger] v@[i], t@[i]) by {
                assert(v@[0 + i] == v@[i]);
            }
        } else {
            if lowercase_eq(v@, t@) {
                assert forall|j: int| 0 <= j < t@.len() implies lowers_to(#[trigger] v@[0 + j], t@[j]) by {
                    assert(v@[0 + j] == v@[j]);
                }
            }
        }
    }
    r
}

/// `char::to_ascii_lowercase`.
pub fn ascii_lower_exec(c: char) -> (r: char)
    ensures
        r == ascii_lower(c),
{
    if 'A' <= c && c <= 'Z' {
        let b = c as u8;
        assert(b == c as u32);
        (b + 32) as char
    } else {
        c
    }
}

/// `str::eq_ignore_ascii_case` on character vectors.
pub fn eq_ignore_ascii_case_exec(v: &Vec<char>, t: &[char]) -> (r: bool)
    ensures
        r == eq_ignore_ascii_case(v@, t@),
{
    if v.len() != t.len() {
        return false;
    }
    let mut k: usize = 0;
    while k < t.len()
        invariant
            v@.len() == t@.len(),
            k <= t@.len(),
            forall|j: int| 0 <= j < k ==> ascii_lower(#[trigger] v@[j]) == ascii_lower(t@[j]),
        decreases t.len() - k,
    {
        if ascii_lower_exec(v[k]) != ascii_lower_exec(t[k]) {
            return false;
        }
        k += 1;
    }
    true
}

/// `str::to_ascii_lowercase` on a character vector.
pub fn to_ascii_lower_exec(v: &Vec<char>) -> (r: Vec<char>)
    ensures
        r@ == to_ascii_lower(v@),
{
    let mut r: Vec<char> = Vec::new();
    let mut k: usize = 0;
    while k < v.len()
        invariant
            k <= v.len(),
            r@.len() == k,
            forall|j: int| 0 <= j < k ==> r@[j] == ascii_lower(#[trigger] v@[j]),
        decreases v.len() - k,
    {
        r.push(ascii_lower_exec(v[k]));
        k += 1;
    }
    assert(r@ == to_ascii_lower(v@));
    r
}

/// Number of trailing `c` characters of `s`.
pub open spec fn trailing_count(s: Seq<char>, c: char) -> nat
    decreases s.len(),
{
    if s.len() > 0 && s.last() == c {
        1 + trailing_count(s.drop_last(), c)
    } else {
        0
    }
}

/// `str::trim_end_matches(c)`: `s` without its trailing `c` characters.
pub open spec fn trim_end_char(s: Seq<char>, c: char) -> Seq<char> {
    s.take(s.len() - trailing_count(s, c))
}

pub proof fn lemma_trailing_count_is(s: Seq<char>, c: char, k: int)
    requires
        0 <= k <= s.len(),
        forall|j: int| s.len() - k <= j < s.len() ==> #[trigger] s[j] == c,
        k == s.len() || s[s.len() - k - 1] != c,
    ensures
        trailing_count(s, c) == k,
    decreases k,
{
    if k > 0 {
        assert forall|j: int| s.drop_last().len() - (k - 1) <= j < s.drop_last().len()
            implies #[trigger] s.drop_last()[j] == c by {
            assert(s.drop_last()[j] == s[j]);
        }
        lemma_trailing_count_is(s.drop_last(), c, k - 1);
    }
}

/// `s` without its trailing `c` characters, as a `String`.
pub fn trim_end_char_string(s: &str, c: char) -> (r: String)
    ensures
        r@ == trim_end_char(s@, c),
{
    let v = chars_of(s);
    let mut i = v.len();
    while i > 0 && v[i - 1] == c
        invariant
            i <= v.len(),
            forall|j: int| i <= j < v.len() ==> #[trigger] v@[j] == c,
        decreases i,
    {
        i -= 1;
    }
    proof {
        lemma_trailing_count_is(v@, c, v.len() - i);
    }
    let mut r = String::new();
    append_range(&mut r, &v, 0, i);
    assert(v@.subrange(0, i as int) == v@.take(i as int));
    r
}

} // verus!
