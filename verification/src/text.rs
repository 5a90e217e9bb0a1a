//! Text as sequences of characters: reading a `str` out, building a `String` back, and the
//! character classes and splits the rest of the crate states its rules in.

use vstd::prelude::*;
use vstd::std_specs::iter::IteratorSpec;
use vstd::string::StringExecFns;

verus! {

broadcast use vstd::string::axiom_spec_iter, vstd::string::next_postcondition;

/// ASCII letters and digits.
pub open spec fn is_alnum(c: char) -> bool {
    ('a' <= c && c <= 'z') || ('A' <= c && c <= 'Z') || ('0' <= c && c <= '9')
}

/// ASCII letters.
pub open spec fn is_alpha(c: char) -> bool {
    ('a' <= c && c <= 'z') || ('A' <= c && c <= 'Z')
}

/// ASCII hex digits, either case.
pub open spec fn is_hex(c: char) -> bool {
    ('a' <= c && c <= 'f') || ('A' <= c && c <= 'F') || ('0' <= c && c <= '9')
}

/// Unicode's `White_Space` property, as `char::is_whitespace` documents it.
pub open spec fn is_space(c: char) -> bool {
    let n = c as u32;
    (0x09 <= n && n <= 0x0d) || n == 0x20 || n == 0x85 || n == 0xa0 || n == 0x1680 || (0x2000
        <= n && n <= 0x200a) || n == 0x2028 || n == 0x2029 || n == 0x202f || n == 0x205f || n
        == 0x3000
}

/// ASCII whitespace as `u8::is_ascii_whitespace` has it: space, tab, newline, form feed, return.
pub open spec fn is_ascii_space(b: u8) -> bool {
    b == 0x20 || b == 0x09 || b == 0x0a || b == 0x0c || b == 0x0d
}

/// The ASCII lowercase of `c`; every other character as it is.
pub open spec fn ascii_lower(c: char) -> char {
    if 'A' <= c && c <= 'Z' {
        ((c as u32) + 32) as char
    } else {
        c
    }
}

/// `s` with its ASCII letters lowercased.
pub open spec fn ascii_lower_seq(s: Seq<char>) -> Seq<char> {
    s.map_values(|c: char| ascii_lower(c))
}

/// Whether `c` occurs in `s`.
pub open spec fn has(s: Seq<char>, c: char) -> bool {
    exists|i: int| 0 <= i < s.len() && s[i] == c
}

/// `s` split at every `sep`, as `str::split` splits: one piece more than there are separators.
pub open spec fn split<T>(s: Seq<T>, sep: T) -> Seq<Seq<T>>
    decreases s.len(),
{
    if s.len() == 0 {
        seq![Seq::empty()]
    } else {
        let init = split(s.drop_last(), sep);
        if s.last() == sep {
            init.push(Seq::empty())
        } else {
            init.update(init.len() - 1, init.last().push(s.last()))
        }
    }
}

/// A split always has a piece.
pub proof fn lemma_split_nonempty<T>(s: Seq<T>, sep: T)
    ensures
        split(s, sep).len() >= 1,
    decreases s.len(),
{
    if s.len() > 0 {
        lemma_split_nonempty(s.drop_last(), sep);
    }
}

/// Whether `prefix` begins `s`.
pub open spec fn starts(s: Seq<char>, prefix: Seq<char>) -> bool {
    prefix.len() <= s.len() && s.take(prefix.len() as int) == prefix
}

/// Whether `suffix` ends `s`.
pub open spec fn ends(s: Seq<char>, suffix: Seq<char>) -> bool {
    suffix.len() <= s.len() && s.skip(s.len() - suffix.len()) == suffix
}

/// The characters of `s`, in order.
pub fn chars_of(s: &str) -> (out: Vec<char>)
    ensures
        out@ == s@,
{
    let mut out: Vec<char> = Vec::new();
    for c in it: s.chars()
        invariant
            out@ == it.seq().take(it.index() as int),
            it.seq() == s@,
    {
        out.push(c);
    }
    out
}

/// Appends `c` to `s`: `String::push`.
#[verifier::external_body]
pub fn push_char(s: &mut String, c: char)
    ensures
        final(s)@ == old(s)@.push(c),
{
    s.push(c);
}

/// `chars` as a string.
pub fn string_of(chars: &[char]) -> (out: String)
    ensures
        out@ == chars@,
{
    let mut out = String::new();
    let mut i: usize = 0;
    while i < chars.len()
        invariant
            i <= chars@.len(),
            out@ == chars@.take(i as int),
        decreases chars@.len() - i,
    {
        push_char(&mut out, chars[i]);
        i += 1;
        assert(chars@.take(i as int) == chars@.take((i - 1) as int).push(chars@[i - 1]));
    }
    assert(chars@.take(chars@.len() as int) == chars@);
    out
}

/// A copy of `s`.
pub fn copy_string(s: &String) -> (out: String)
    ensures
        out@ == s@,
{
    s.clone()
}

/// Whether `a` and `b` hold the same characters.
pub fn same(a: &[char], b: &[char]) -> (r: bool)
    ensures
        r == (a@ == b@),
{
    if a.len() != b.len() {
        return false;
    }
    let mut i: usize = 0;
    while i < a.len()
        invariant
            a@.len() == b@.len(),
            i <= a@.len(),
            forall|j: int| 0 <= j < i ==> a@[j] == b@[j],
        decreases a@.len() - i,
    {
        if a[i] != b[i] {
            return false;
        }
        i += 1;
    }
    assert(a@ =~= b@);
    true
}

/// Whether `pat` occurs in `s`.
pub open spec fn holds(s: Seq<char>, pat: Seq<char>) -> bool {
    exists|i: int| 0 <= i <= s.len() && starts(#[trigger] s.skip(i), pat)
}

/// Whether `pat` occurs in `s`.
pub fn holds_text(s: &[char], pat: &[char]) -> (r: bool)
    ensures
        r == holds(s@, pat@),
{
    let mut i: usize = 0;
    while i < s.len()
        invariant
            i <= s@.len(),
            forall|j: int| 0 <= j < i ==> !starts(#[trigger] s@.skip(j), pat@),
        decreases s@.len() - i,
    {
        let rest = tail(s, i);
        if starts_with(rest, pat) {
            return true;
        }
        i += 1;
    }
    let rest = tail(s, i);
    starts_with(rest, pat)
}

/// Whether `s` begins with `prefix`.
pub fn starts_with(s: &[char], prefix: &[char]) -> (r: bool)
    ensures
        r == starts(s@, prefix@),
{
    if prefix.len() > s.len() {
        return false;
    }
    let mut i: usize = 0;
    while i < prefix.len()
        invariant
            prefix@.len() <= s@.len(),
            i <= prefix@.len(),
            forall|j: int| 0 <= j < i ==> s@[j] == prefix@[j],
        decreases prefix@.len() - i,
    {
        if s[i] != prefix[i] {
            assert(s@.take(prefix@.len() as int)[i as int] != prefix@[i as int]);
            return false;
        }
        i += 1;
    }
    assert(s@.take(prefix@.len() as int) =~= prefix@);
    true
}

/// Whether `s` ends with `suffix`.
pub fn ends_with(s: &[char], suffix: &[char]) -> (r: bool)
    ensures
        r == ends(s@, suffix@),
{
    if suffix.len() > s.len() {
        return false;
    }
    let n = s.len();
    let off = n - suffix.len();
    let mut i: usize = 0;
    while i < suffix.len()
        invariant
            suffix@.len() <= s@.len(),
            off + suffix@.len() == s@.len(),
            n == s@.len(),
            i <= suffix@.len(),
            forall|j: int| 0 <= j < i ==> s@[off + j] == suffix@[j],
        decreases suffix@.len() - i,
    {
        assert(off + i < s@.len());
        if s[off + i] != suffix[i] {
            assert(s@.skip(off as int)[i as int] != suffix@[i as int]);
            return false;
        }
        i += 1;
    }
    assert(s@.skip(off as int) =~= suffix@);
    true
}

/// Whether `c` occurs in `s`.
pub fn contains_char(s: &[char], c: char) -> (r: bool)
    ensures
        r == has(s@, c),
{
    let mut i: usize = 0;
    while i < s.len()
        invariant
            i <= s@.len(),
            forall|j: int| 0 <= j < i ==> s@[j] != c,
        decreases s@.len() - i,
    {
        if s[i] == c {
            return true;
        }
        i += 1;
    }
    false
}

/// `s` split at every `sep`.
pub fn split_chars(s: &[char], sep: char) -> (out: Vec<Vec<char>>)
    ensures
        out@.len() == split(s@, sep).len(),
        forall|i: int| 0 <= i < out@.len() ==> #[trigger] out@[i]@ == split(s@, sep)[i],
{
    let mut out: Vec<Vec<char>> = Vec::new();
    let mut cur: Vec<char> = Vec::new();
    let mut i: usize = 0;
    while i < s.len()
        invariant
            i <= s@.len(),
            out@.len() + 1 == split(s@.take(i as int), sep).len(),
            forall|k: int| 0 <= k < out@.len() ==> #[trigger] out@[k]@ == split(s@.take(i as int), sep)[k],
            cur@ == split(s@.take(i as int), sep).last(),
        decreases s@.len() - i,
    {
        let ghost before = s@.take(i as int);
        proof {
            lemma_split_nonempty(before, sep);
        }
        let c = s[i];
        i += 1;
        assert(s@.take(i as int).drop_last() == before);
        if c == sep {
            out.push(cur);
            cur = Vec::new();
        } else {
            cur.push(c);
        }
    }
    assert(s@.take(s@.len() as int) == s@);
    out.push(cur);
    out
}

/// Where `c` first occurs in `s`.
pub open spec fn first_index(s: Seq<char>, c: char) -> Option<int> {
    if has(s, c) {
        Some(choose|i: int| 0 <= i < s.len() && s[i] == c && forall|j: int| 0 <= j < i ==> s[j] != c)
    } else {
        None
    }
}

/// `s` split at the first `c`, as `str::split_once` splits it.
pub open spec fn split_once(s: Seq<char>, c: char) -> Option<(Seq<char>, Seq<char>)> {
    match first_index(s, c) {
        Some(i) => Some((s.take(i), s.skip(i + 1))),
        None => None,
    }
}

/// Where `c` first occurs in `s`.
pub fn find_char(s: &[char], c: char) -> (r: Option<usize>)
    ensures
        match r {
            Some(i) => first_index(s@, c) == Some(i as int) && i < s@.len() && s@[i as int] == c,
            None => first_index(s@, c) is None,
        },
{
    let mut i: usize = 0;
    while i < s.len()
        invariant
            i <= s@.len(),
            forall|j: int| 0 <= j < i ==> s@[j] != c,
        decreases s@.len() - i,
    {
        if s[i] == c {
            proof {
                let k = choose|k: int| 0 <= k < s@.len() && s@[k] == c && forall|j: int| 0 <= j < k ==> s@[j] != c;
                assert(0 <= i < s@.len() && s@[i as int] == c && forall|j: int| 0 <= j < i ==> s@[j] != c);
                if k < i {
                    assert(s@[k] != c);
                } else if k > i {
                    assert(s@[i as int] != c);
                }
            }
            return Some(i);
        }
        i += 1;
    }
    None
}

/// `s[from..to]`.
pub fn slice_of(s: &[char], from: usize, to: usize) -> (out: Vec<char>)
    requires
        from <= to <= s@.len(),
    ensures
        out@ == s@.subrange(from as int, to as int),
{
    let mut out: Vec<char> = Vec::new();
    let mut i = from;
    while i < to
        invariant
            from <= i <= to,
            to <= s@.len(),
            out@ == s@.subrange(from as int, i as int),
        decreases to - i,
    {
        out.push(s[i]);
        i += 1;
        assert(s@.subrange(from as int, i as int) == s@.subrange(from as int, i - 1).push(s@[i - 1]));
    }
    out
}

/// Appends `s` to `out`.
pub fn extend(out: &mut Vec<char>, s: &[char])
    ensures
        final(out)@ == old(out)@ + s@,
{
    let ghost before = out@;
    let mut i: usize = 0;
    while i < s.len()
        invariant
            i <= s@.len(),
            out@ == before + s@.take(i as int),
        decreases s@.len() - i,
    {
        out.push(s[i]);
        i += 1;
        assert(s@.take(i as int) == s@.take(i - 1).push(s@[i - 1]));
    }
    assert(s@.take(s@.len() as int) == s@);
}

/// A copy of `s`.
pub fn bytes_of(s: &[u8]) -> (out: Vec<u8>)
    ensures
        out@ == s@,
{
    let mut out: Vec<u8> = Vec::new();
    let mut i: usize = 0;
    while i < s.len()
        invariant
            i <= s@.len(),
            out@ == s@.take(i as int),
        decreases s@.len() - i,
    {
        out.push(s[i]);
        i += 1;
        assert(s@.take(i as int) == s@.take(i - 1).push(s@[i - 1]));
    }
    assert(s@.take(s@.len() as int) == s@);
    out
}

/// `pieces` joined with `sep` between each two, as `[T]::join` joins them.
pub open spec fn join(pieces: Seq<Seq<char>>, sep: char) -> Seq<char>
    decreases pieces.len(),
{
    if pieces.len() == 0 {
        Seq::empty()
    } else if pieces.len() == 1 {
        pieces[0]
    } else {
        join(pieces.drop_last(), sep) + seq![sep] + pieces.last()
    }
}

/// `pieces` joined with `sep` between each two.
pub fn joined(pieces: &Vec<Vec<char>>, sep: char) -> (out: Vec<char>)
    ensures
        out@ == join(pieces.deep_view(), sep),
{
    let mut out: Vec<char> = Vec::new();
    let mut i: usize = 0;
    while i < pieces.len()
        invariant
            i <= pieces@.len(),
            out@ == join(pieces.deep_view().take(i as int), sep),
        decreases pieces@.len() - i,
    {
        let ghost all = pieces.deep_view();
        assert(all.take(i + 1).drop_last() == all.take(i as int));
        assert(all.take(i + 1).last() == pieces@[i as int]@);
        if i > 0 {
            out.push(sep);
        }
        extend(&mut out, pieces[i].as_slice());
        i += 1;
    }
    assert(pieces.deep_view().take(pieces@.len() as int) == pieces.deep_view());
    out
}

/// A copy of `s`.
pub fn copy_chars(s: &[char]) -> (out: Vec<char>)
    ensures
        out@ == s@,
{
    let mut out: Vec<char> = Vec::new();
    extend(&mut out, s);
    assert(out@ =~= s@);
    out
}

/// A copy of `v`.
pub fn copy_strings(v: &Vec<String>) -> (out: Vec<String>)
    ensures
        out@ == v@,
{
    let mut out: Vec<String> = Vec::new();
    let mut i: usize = 0;
    while i < v.len()
        invariant
            i <= v@.len(),
            out@ == v@.take(i as int),
        decreases v@.len() - i,
    {
        out.push(v[i].clone());
        i += 1;
        assert(v@.take(i as int) == v@.take(i - 1).push(v@[i - 1]));
    }
    assert(v@.take(v@.len() as int) == v@);
    out
}

/// `pieces` joined with `sep` between each two.
pub open spec fn join_with(pieces: Seq<Seq<char>>, sep: Seq<char>) -> Seq<char>
    decreases pieces.len(),
{
    if pieces.len() == 0 {
        Seq::empty()
    } else if pieces.len() == 1 {
        pieces[0]
    } else {
        join_with(pieces.drop_last(), sep) + sep + pieces.last()
    }
}

/// The texts of `v`.
pub open spec fn views(v: Seq<String>) -> Seq<Seq<char>> {
    v.map_values(|s: String| s@)
}

/// `pieces` joined with `sep` between each two.
pub fn joined_with(pieces: &Vec<String>, sep: &str) -> (out: String)
    ensures
        out@ == join_with(views(pieces@), sep@),
{
    let mut out = String::new();
    let ghost all = views(pieces@);
    let mut i: usize = 0;
    while i < pieces.len()
        invariant
            i <= pieces@.len(),
            all == views(pieces@),
            out@ == join_with(all.take(i as int), sep@),
        decreases pieces@.len() - i,
    {
        assert(all.take(i + 1).drop_last() == all.take(i as int));
        assert(all.take(i + 1).last() == pieces@[i as int]@);
        if i > 0 {
            out = cat(out.as_str(), sep);
        }
        out = cat(out.as_str(), pieces[i].as_str());
        i += 1;
    }
    assert(all.take(pieces@.len() as int) == all);
    out
}

/// The digit `d`.
pub open spec fn digit(d: nat) -> char {
    ((d + 48) as u32) as char
}

/// `n` in decimal, as `usize`'s `Display` writes it.
pub open spec fn decimal(n: nat) -> Seq<char>
    decreases n,
{
    if n < 10 {
        seq![digit(n)]
    } else {
        decimal(n / 10).push(digit(n % 10))
    }
}

/// `n` in decimal.
pub fn decimal_of(n: usize) -> (out: String)
    ensures
        out@ == decimal(n as nat),
    decreases n,
{
    let d = ((n % 10) as u8 + 48u8) as char;
    assert(d == digit((n % 10) as nat));
    if n < 10 {
        let mut out = String::new();
        push_char(&mut out, d);
        assert(out@ =~= seq![d]);
        out
    } else {
        let mut out = decimal_of(n / 10);
        push_char(&mut out, d);
        out
    }
}

/// The first value set among `values`, from the front.
pub open spec fn first_set<T>(values: Seq<Option<T>>) -> Option<T>
    decreases values.len(),
{
    if values.len() == 0 {
        None
    } else {
        match first_set(values.drop_last()) {
            Some(v) => Some(v),
            None => values.last(),
        }
    }
}

/// Once a prefix of `values` sets a value, the first value of `values` is its.
pub proof fn lemma_first_set_prefix<T>(values: Seq<Option<T>>, k: int)
    requires
        0 <= k <= values.len(),
        first_set(values.take(k)) is Some,
    ensures
        first_set(values) == first_set(values.take(k)),
    decreases values.len(),
{
    if k < values.len() {
        assert(values.drop_last().take(k) == values.take(k));
        lemma_first_set_prefix(values.drop_last(), k);
    } else {
        assert(values.take(k) == values);
    }
}

/// The first value set is set at some place.
pub proof fn lemma_first_set_in<T>(values: Seq<Option<T>>)
    ensures
        first_set(values) matches Some(v) ==> exists|k: int| 0 <= k < values.len() && values[k] == Some(v),
    decreases values.len(),
{
    if values.len() > 0 {
        lemma_first_set_in(values.drop_last());
        if first_set(values.drop_last()) is Some {
            let k = choose|k: int| 0 <= k < values.drop_last().len() && values.drop_last()[k] == first_set(values.drop_last());
            assert(values[k] == values.drop_last()[k]);
        }
    }
}

/// A sequence that sets a value has a first.
pub proof fn lemma_first_set_some<T>(values: Seq<Option<T>>, k: int)
    requires
        0 <= k < values.len(),
        values[k] is Some,
    ensures
        first_set(values) is Some,
    decreases values.len(),
{
    if k < values.len() - 1 {
        assert(values.drop_last()[k] == values[k]);
        lemma_first_set_some(values.drop_last(), k);
    }
}

/// The first value set among `values.take(k + 1)`: that of `values.take(k)`, else the `k`th.
pub proof fn lemma_first_set_step<T>(values: Seq<Option<T>>, k: int)
    requires
        0 <= k < values.len(),
    ensures
        first_set(values.take(k + 1)) == match first_set(values.take(k)) {
            Some(v) => Some(v),
            None => values[k],
        },
{
    assert(values.take(k + 1).drop_last() == values.take(k));
}

/// `s` from `from` on.
pub fn tail<T>(s: &[T], from: usize) -> (out: &[T])
    requires
        from <= s@.len(),
    ensures
        out@ == s@.skip(from as int),
{
    let (_, rest) = s.split_at(from);
    assert(rest@ =~= s@.skip(from as int));
    rest
}

/// `n` in decimal.
pub fn decimal_of_u64(n: u64) -> (out: String)
    ensures
        out@ == decimal(n as nat),
    decreases n,
{
    let d = ((n % 10) as u8 + 48u8) as char;
    assert(d == digit((n % 10) as nat));
    if n < 10 {
        let mut out = String::new();
        push_char(&mut out, d);
        assert(out@ =~= seq![d]);
        out
    } else {
        let mut out = decimal_of_u64(n / 10);
        push_char(&mut out, d);
        out
    }
}

/// `a` then `b`.
pub fn cat(a: &str, b: &str) -> (out: String)
    ensures
        out@ == a@ + b@,
{
    let mut out = a.to_owned();
    out.append(b);
    out
}

/// What `str`'s `Debug` writes for `s`: it quoted, with its special characters escaped.
pub uninterp spec fn debug_str(s: Seq<char>) -> Seq<char>;

/// `s` as `{:?}` writes it.
#[verifier::external_body]
pub fn quoted(s: &str) -> (out: String)
    ensures
        out@ == debug_str(s@),
{
    format!("{s:?}")
}

/// The least `i` in `0..n` at which `p` holds.
pub open spec fn least(n: int, p: spec_fn(int) -> bool) -> Option<int> {
    if exists|i: int| 0 <= i < n && #[trigger] p(i) {
        Some(choose|i: int| 0 <= i < n && #[trigger] p(i) && forall|j: int| 0 <= j < i ==> !#[trigger] p(j))
    } else {
        None
    }
}

/// `least` is the index at which `p` first holds.
pub proof fn lemma_least(n: int, p: spec_fn(int) -> bool, i: int)
    requires
        0 <= i < n,
        p(i),
        forall|j: int| 0 <= j < i ==> !#[trigger] p(j),
    ensures
        least(n, p) == Some(i),
{
    assert(0 <= i < n && p(i) && forall|j: int| 0 <= j < i ==> !#[trigger] p(j));
    let k = choose|k: int| 0 <= k < n && #[trigger] p(k) && forall|j: int| 0 <= j < k ==> !#[trigger] p(j);
    if k < i {
        assert(!p(k));
    } else if k > i {
        assert(!p(i));
    }
}

proof fn lemma_least_exists(n: int, p: spec_fn(int) -> bool, i: int)
    requires
        0 <= i < n,
        p(i),
    ensures
        exists|k: int| 0 <= k < n && #[trigger] p(k) && forall|j: int| 0 <= j < k ==> !#[trigger] p(j),
    decreases i,
{
    if exists|j: int| 0 <= j < i && #[trigger] p(j) {
        let j = choose|j: int| 0 <= j < i && #[trigger] p(j);
        lemma_least_exists(n, p, j);
    } else {
        assert(0 <= i < n && p(i) && forall|j: int| 0 <= j < i ==> !#[trigger] p(j));
    }
}

/// What `least` gives is where `p` first holds; where it gives nothing, `p` holds nowhere.
pub proof fn lemma_least_found(n: int, p: spec_fn(int) -> bool)
    ensures
        match least(n, p) {
            Some(i) => 0 <= i < n && p(i) && forall|j: int| 0 <= j < i ==> !#[trigger] p(j),
            None => forall|j: int| 0 <= j < n ==> !#[trigger] p(j),
        },
{
    if exists|i: int| 0 <= i < n && #[trigger] p(i) {
        let i = choose|i: int| 0 <= i < n && #[trigger] p(i);
        lemma_least_exists(n, p, i);
    }
}

/// Appending what holds no separator to a text lengthens the last piece of its split.
pub proof fn lemma_split_append<T>(x: Seq<T>, l: Seq<T>, sep: T)
    requires
        forall|i: int| 0 <= i < l.len() ==> l[i] != sep,
    ensures
        split(x + l, sep) == split(x, sep).update(split(x, sep).len() - 1, split(x, sep).last() + l),
    decreases l.len(),
{
    lemma_split_nonempty(x, sep);
    if l.len() == 0 {
        assert(x + l =~= x);
        assert(split(x, sep).last() + l =~= split(x, sep).last());
        assert(split(x, sep).update(split(x, sep).len() - 1, split(x, sep).last()) =~= split(x, sep));
    } else {
        let m = l.drop_last();
        lemma_split_append(x, m, sep);
        assert((x + l).drop_last() =~= x + m);
        assert((x + l).last() == l.last());
        lemma_split_nonempty(x + m, sep);
        let s = split(x, sep);
        assert((s.last() + m).push(l.last()) =~= s.last() + l);
        assert(split(x + l, sep) =~= s.update(s.len() - 1, s.last() + l));
    }
}

/// A separator at the end of a text ends its split with an empty piece.
pub proof fn lemma_split_push_sep<T>(x: Seq<T>, sep: T)
    ensures
        split(x.push(sep), sep) == split(x, sep).push(Seq::empty()),
{
    assert(x.push(sep).drop_last() =~= x);
}

/// No piece of a split holds the separator.
pub proof fn lemma_split_pieces<T>(x: Seq<T>, sep: T)
    ensures
        forall|k: int, i: int| 0 <= k < split(x, sep).len() && 0 <= i < split(x, sep)[k].len() ==> #[trigger] split(x, sep)[k][i] != sep,
    decreases x.len(),
{
    if x.len() > 0 {
        lemma_split_pieces(x.drop_last(), sep);
        lemma_split_nonempty(x.drop_last(), sep);
    }
}

} // verus!
