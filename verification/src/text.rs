//! Text as sequences of characters.
//!
//! The library reads and builds text character by character. Every function
//! here works on the character view of a string and says exactly which
//! characters come out.

use vstd::prelude::*;
#[allow(unused_imports)]
use vstd::string::StringSliceAdditionalSpecFns;

verus! {

/// The characters with the Unicode `White_Space` property.
pub open spec fn is_white_space(c: char) -> bool {
    ||| '\u{9}' <= c <= '\u{d}'
    ||| c == ' '
    ||| c == '\u{85}'
    ||| c == '\u{a0}'
    ||| c == '\u{1680}'
    ||| '\u{2000}' <= c <= '\u{200a}'
    ||| c == '\u{2028}'
    ||| c == '\u{2029}'
    ||| c == '\u{202f}'
    ||| c == '\u{205f}'
    ||| c == '\u{3000}'
}

/// `char::is_whitespace` holds of exactly the characters with the Unicode
/// `White_Space` property.
pub assume_specification[ char::is_whitespace ](c: char) -> (r: bool)
    ensures
        r == is_white_space(c),
;

/// `String::push` adds one character at the end.
pub assume_specification[ String::push ](s: &mut String, c: char)
    ensures
        final(s)@ == old(s)@.push(c),
;

/// The views of a sequence of values, one by one.
pub open spec fn views<T: View>(s: Seq<T>) -> Seq<T::V> {
    Seq::new(s.len(), |i: int| s[i]@)
}

pub broadcast proof fn lemma_views_push<T: View>(s: Seq<T>, t: T)
    ensures
        #[trigger] views(s.push(t)) == views(s).push(t@),
{
    assert(views(s.push(t)) =~= views(s).push(t@));
}

pub broadcast proof fn lemma_views_empty<T: View>(s: Seq<T>)
    requires
        s.len() == 0,
    ensures
        #[trigger] views(s) == Seq::<T::V>::empty(),
{
    assert(views(s) =~= Seq::<T::V>::empty());
}

/// The view of what an option holds.
pub open spec fn opt_view<T: View>(o: Option<T>) -> Option<T::V> {
    match o {
        Some(t) => Some(t@),
        None => None,
    }
}

/// A copy of an optional string.
pub fn copied(o: &Option<String>) -> (r: Option<String>)
    ensures
        opt_view(r) == opt_view(*o),
{
    match o {
        Some(s) => Some(s.clone()),
        None => None,
    }
}

/// The characters of a string.
pub fn chars_of(s: &str) -> (r: Vec<char>)
    ensures
        r@ == s@,
{
    broadcast use vstd::string::axiom_spec_iter;

    let mut out: Vec<char> = Vec::new();
    for c in it: s.chars()
        invariant
            it.seq() == s@,
            out@ == it.seq().take(it.index() as int),
    {
        out.push(c);
    }
    out
}

/// The string of the characters `chars[from..to]`.
pub fn string_of(chars: &[char], from: usize, to: usize) -> (r: String)
    requires
        from <= to <= chars@.len(),
    ensures
        r@ == chars@.subrange(from as int, to as int),
{
    let mut out = String::new();
    let mut i: usize = from;
    while i < to
        invariant
            from <= i <= to <= chars@.len(),
            out@ == chars@.subrange(from as int, i as int),
        decreases to - i,
    {
        out.push(chars[i]);
        i += 1;
        assert(out@ =~= chars@.subrange(from as int, i as int));
    }
    out
}

/// Whether two strings hold the same characters.
pub fn same_text(a: &str, b: &str) -> (r: bool)
    ensures
        r == (a@ == b@),
{
    same_chars(chars_of(a).as_slice(), chars_of(b).as_slice())
}

/// Whether two character slices are equal.
pub fn same_chars(x: &[char], y: &[char]) -> (r: bool)
    ensures
        r == (x@ == y@),
{
    if x.len() != y.len() {
        return false;
    }
    let mut i: usize = 0;
    while i < x.len()
        invariant
            x@.len() == y@.len(),
            i <= x@.len(),
            forall|k: int| 0 <= k < i ==> x@[k] == y@[k],
        decreases x@.len() - i,
    {
        if x[i] != y[i] {
            return false;
        }
        i += 1;
    }
    assert(x@ =~= y@);
    true
}

/// The text without its leading white space.
pub open spec fn trim_start(s: Seq<char>) -> Seq<char>
    decreases s.len(),
{
    if s.len() > 0 && is_white_space(s[0]) {
        trim_start(s.drop_first())
    } else {
        s
    }
}

/// The text without its trailing white space.
pub open spec fn trim_end(s: Seq<char>) -> Seq<char>
    decreases s.len(),
{
    if s.len() > 0 && is_white_space(s.last()) {
        trim_end(s.drop_last())
    } else {
        s
    }
}

/// The text without the white space at either end.
pub open spec fn trim(s: Seq<char>) -> Seq<char> {
    trim_end(trim_start(s))
}

/// Whether the text holds nothing but white space.
pub open spec fn is_blank(s: Seq<char>) -> bool {
    forall|i: int| 0 <= i < s.len() ==> is_white_space(#[trigger] s[i])
}

pub proof fn lemma_trim_start(s: Seq<char>)
    ensures
        trim_start(s).len() <= s.len(),
        trim_start(s) == s.skip(s.len() - trim_start(s).len()),
        trim_start(s).len() > 0 ==> !is_white_space(trim_start(s)[0]),
        forall|i: int| 0 <= i < s.len() - trim_start(s).len() ==> is_white_space(#[trigger] s[i]),
    decreases s.len(),
{
    if s.len() > 0 && is_white_space(s[0]) {
        let t = s.drop_first();
        lemma_trim_start(t);
        let n = s.len() - trim_start(s).len();
        assert(t.skip(n - 1) =~= s.skip(n));
        assert forall|i: int| 0 <= i < n implies is_white_space(#[trigger] s[i]) by {
            if i > 0 {
                assert(t[i - 1] == s[i]);
            }
        }
    } else {
        assert(s.skip(0) =~= s);
    }
}

pub proof fn lemma_trim_end(s: Seq<char>)
    ensures
        trim_end(s).len() <= s.len(),
        trim_end(s) == s.take(trim_end(s).len() as int),
        trim_end(s).len() > 0 ==> !is_white_space(trim_end(s).last()),
        forall|i: int| trim_end(s).len() <= i < s.len() ==> is_white_space(#[trigger] s[i]),
    decreases s.len(),
{
    if s.len() > 0 && is_white_space(s.last()) {
        let t = s.drop_last();
        lemma_trim_end(t);
        let n = trim_end(s).len() as int;
        assert(t.take(n) =~= s.take(n));
        assert forall|i: int| n <= i < s.len() implies is_white_space(#[trigger] s[i]) by {
            if i < s.len() - 1 {
                assert(t[i] == s[i]);
            }
        }
    } else {
        assert(s.take(s.len() as int) =~= s);
    }
}

/// Trimming cuts `s` at two places, and only white space falls away.
pub proof fn lemma_trim(s: Seq<char>) -> (cut: (int, int))
    ensures
        0 <= cut.0 <= cut.1 <= s.len(),
        trim(s) == s.subrange(cut.0, cut.1),
        forall|i: int| 0 <= i < cut.0 ==> is_white_space(#[trigger] s[i]),
        forall|i: int| cut.1 <= i < s.len() ==> is_white_space(#[trigger] s[i]),
        trim(s).len() > 0 ==> !is_white_space(trim(s)[0]) && !is_white_space(trim(s).last()),
        trim(s).len() == 0 <==> is_blank(s),
{
    lemma_trim_start(s);
    let t = trim_start(s);
    lemma_trim_end(t);
    let a = s.len() - t.len();
    let b = a + trim_end(t).len();
    assert(trim(s) =~= s.subrange(a, b));
    assert forall|i: int| b <= i < s.len() implies is_white_space(#[trigger] s[i]) by {
        assert(t[i - a] == s[i]);
    }
    if trim(s).len() > 0 {
        assert(trim(s)[0] == t[0]);
        assert(s[a] == t[0]);
        assert(!is_white_space(s[a]));
    }
    (a, b)
}

/// Text that neither begins nor ends with white space is its own trimming.
pub proof fn lemma_trim_fixed(s: Seq<char>)
    requires
        s.len() > 0 ==> !is_white_space(s[0]) && !is_white_space(s.last()),
    ensures
        trim(s) == s,
{
}

/// Trimming twice is trimming once.
pub proof fn lemma_trim_idempotent(s: Seq<char>)
    ensures
        trim(trim(s)) == trim(s),
{
    let cut = lemma_trim(s);
    lemma_trim_fixed(trim(s));
}

/// Where the trimmed text begins and ends inside `chars`.
pub fn trim_bounds(chars: &[char]) -> (r: (usize, usize))
    ensures
        r.0 <= r.1 <= chars@.len(),
        trim(chars@) == chars@.subrange(r.0 as int, r.1 as int),
{
    let ghost s = chars@;
    let mut a: usize = 0;
    assert(s.skip(0) =~= s);
    while a < chars.len() && chars[a].is_whitespace()
        invariant
            s == chars@,
            a <= s.len(),
            trim_start(s) == trim_start(s.skip(a as int)),
        decreases s.len() - a,
    {
        proof {
            assert(s.skip(a as int).drop_first() =~= s.skip(a + 1));
        }
        a += 1;
    }
    let ghost t = trim_start(s);
    assert(t == s.skip(a as int));
    let mut b: usize = chars.len();
    assert(s.subrange(a as int, b as int) =~= t);
    while a < b && chars[b - 1].is_whitespace()
        invariant
            s == chars@,
            a <= b <= s.len(),
            trim_end(t) == trim_end(s.subrange(a as int, b as int)),
        decreases b,
    {
        proof {
            assert(s.subrange(a as int, b as int).drop_last() =~= s.subrange(a as int, b - 1));
        }
        b -= 1;
    }
    (a, b)
}

/// The string without the white space at either end.
pub fn trimmed(s: &str) -> (r: String)
    ensures
        r@ == trim(s@),
{
    let chars = chars_of(s);
    let (a, b) = trim_bounds(chars.as_slice());
    string_of(chars.as_slice(), a, b)
}

/// Whether the string holds nothing but white space.
pub fn blank(s: &str) -> (r: bool)
    ensures
        r == is_blank(s@),
        r == (trim(s@).len() == 0),
{
    let chars = chars_of(s);
    let (a, b) = trim_bounds(chars.as_slice());
    proof {
        let cut = lemma_trim(s@);
    }
    a == b
}

/// Whether `needle` stands in `s` at position `i`.
pub open spec fn occurs_at(s: Seq<char>, needle: Seq<char>, i: int) -> bool {
    0 <= i && i + needle.len() <= s.len() && s.subrange(i, i + needle.len()) == needle
}

/// Whether `needle` stands anywhere in `s`.
pub open spec fn has_text(s: Seq<char>, needle: Seq<char>) -> bool {
    exists|i: int| occurs_at(s, needle, i)
}

/// The first position at or after `from` where `needle` stands in `s`.
pub open spec fn find_from(s: Seq<char>, needle: Seq<char>, from: int) -> Option<int>
    decreases s.len() + 1 - from,
{
    if from < 0 || from + needle.len() > s.len() {
        None
    } else if occurs_at(s, needle, from) {
        Some(from)
    } else {
        find_from(s, needle, from + 1)
    }
}

pub proof fn lemma_find_from(s: Seq<char>, needle: Seq<char>, from: int)
    requires
        0 <= from,
    ensures
        match find_from(s, needle, from) {
            Some(i) => from <= i && occurs_at(s, needle, i) && (forall|j: int|
                from <= j < i ==> !occurs_at(s, needle, j)),
            None => forall|j: int| from <= j ==> !occurs_at(s, needle, j),
        },
    decreases s.len() + 1 - from,
{
    if from + needle.len() > s.len() {
    } else if occurs_at(s, needle, from) {
    } else {
        lemma_find_from(s, needle, from + 1);
    }
}

pub fn matches_at(s: &[char], needle: &[char], i: usize) -> (r: bool)
    ensures
        r == occurs_at(s@, needle@, i as int),
{
    if i > s.len() || s.len() - i < needle.len() {
        return false;
    }
    let n: usize = s.len();
    let mut k: usize = 0;
    while k < needle.len()
        invariant
            k <= needle@.len(),
            i + needle@.len() <= s@.len(),
            n == s@.len(),
            forall|j: int| 0 <= j < k ==> s@[i + j] == needle@[j],
        decreases needle@.len() - k,
    {
        if s[i + k] != needle[k] {
            assert(s@.subrange(i as int, i + needle@.len())[k as int] != needle@[k as int]);
            return false;
        }
        k += 1;
    }
    assert(s@.subrange(i as int, i + needle@.len()) =~= needle@);
    true
}

pub fn find_in(s: &[char], needle: &[char], from: usize) -> (r: Option<usize>)
    ensures
        match r {
            Some(i) => find_from(s@, needle@, from as int) == Some(i as int),
            None => find_from(s@, needle@, from as int) is None,
        },
{
    if needle.len() > s.len() || from > s.len() - needle.len() {
        return None;
    }
    let last: usize = s.len() - needle.len();
    let mut i: usize = from;
    while i < last
        invariant
            from <= i <= last,
            last + needle@.len() == s@.len(),
            find_from(s@, needle@, from as int) == find_from(s@, needle@, i as int),
        decreases last - i,
    {
        if matches_at(s, needle, i) {
            return Some(i);
        }
        i += 1;
    }
    assert(find_from(s@, needle@, i + 1) is None);
    if matches_at(s, needle, i) {
        Some(i)
    } else {
        None
    }
}

/// Whether `needle` stands anywhere in `s`.
pub fn contains_text(s: &str, needle: &str) -> (r: bool)
    ensures
        r == has_text(s@, needle@),
{
    let sc = chars_of(s);
    let nc = chars_of(needle);
    proof {
        lemma_find_from(s@, needle@, 0);
    }
    find_in(sc.as_slice(), nc.as_slice(), 0).is_some()
}

/// The text cut at every `sep`.
pub open spec fn split(s: Seq<char>, sep: char) -> Seq<Seq<char>>
    decreases s.len(),
{
    if s.len() == 0 {
        seq![Seq::<char>::empty()]
    } else {
        let before = split(s.drop_last(), sep);
        if s.last() == sep {
            before.push(Seq::empty())
        } else {
            before.drop_last().push(before.last().push(s.last()))
        }
    }
}

pub proof fn lemma_split_len(s: Seq<char>, sep: char)
    ensures
        split(s, sep).len() > 0,
    decreases s.len(),
{
    if s.len() > 0 {
        lemma_split_len(s.drop_last(), sep);
    }
}

/// The first piece of a cut text ends at the first separator.
pub proof fn lemma_split_first(s: Seq<char>, sep: char, n: int)
    requires
        0 <= n <= s.len(),
        forall|i: int| 0 <= i < n ==> s[i] != sep,
        n < s.len() ==> s[n] == sep,
    ensures
        split(s, sep).len() > 0,
        split(s, sep)[0] == s.take(n),
        n < s.len() ==> split(s, sep).len() > 1,
    decreases s.len(),
{
    if s.len() > 0 {
        let rest = s.drop_last();
        if n == s.len() {
            lemma_split_first(rest, sep, n - 1);
            lemma_one_piece(rest, sep);
            assert(rest.take(n - 1).push(s.last()) =~= s.take(n));
        } else {
            lemma_split_first(rest, sep, n);
            assert(rest.take(n) =~= s.take(n));
        }
    } else {
        assert(s.take(n) =~= Seq::empty());
    }
}

proof fn lemma_one_piece(s: Seq<char>, sep: char)
    requires
        forall|i: int| 0 <= i < s.len() ==> s[i] != sep,
    ensures
        split(s, sep).len() == 1,
    decreases s.len(),
{
    if s.len() > 0 {
        assert forall|i: int| 0 <= i < s.drop_last().len() implies s.drop_last()[i] != sep by {
            assert(s.drop_last()[i] == s[i]);
        }
        lemma_one_piece(s.drop_last(), sep);
    }
}

/// The pieces of `s` between the separators.
pub fn split_on(s: &str, sep: char) -> (r: Vec<String>)
    ensures
        views(r@) == split(s@, sep),
{
    broadcast use {lemma_views_push, lemma_views_empty};

    let chars = chars_of(s);
    let mut out: Vec<String> = Vec::new();
    let mut cur = String::new();
    let mut i: usize = 0;
    assert(views(out@).push(cur@) =~= split(s@.take(0), sep));
    while i < chars.len()
        invariant
            chars@ == s@,
            i <= s@.len(),
            views(out@).push(cur@) == split(s@.take(i as int), sep),
        decreases s@.len() - i,
    {
        let c = chars[i];
        let ghost before = split(s@.take(i as int), sep);
        assert(s@.take(i + 1).drop_last() =~= s@.take(i as int));
        assert(before.drop_last() =~= views(out@));
        if c == sep {
            out.push(cur);
            cur = String::new();
        } else {
            cur.push(c);
        }
        i += 1;
        assert(views(out@).push(cur@) =~= split(s@.take(i as int), sep));
    }
    assert(s@.take(i as int) =~= s@);
    out.push(cur);
    out
}

/// The maximal runs of characters that are not white space.
pub open spec fn words(s: Seq<char>) -> Seq<Seq<char>>
    decreases s.len(),
{
    if s.len() == 0 {
        Seq::empty()
    } else {
        let before = words(s.drop_last());
        let c = s.last();
        if is_white_space(c) {
            before
        } else if s.len() == 1 || is_white_space(s[s.len() - 2]) {
            before.push(seq![c])
        } else {
            before.drop_last().push(before.last().push(c))
        }
    }
}

/// The words of `s`, in order.
pub fn words_of(s: &str) -> (r: Vec<String>)
    ensures
        views(r@) == words(s@),
{
    broadcast use {lemma_views_push, lemma_views_empty};

    let chars = chars_of(s);
    let mut out: Vec<String> = Vec::new();
    let mut cur = String::new();
    let mut i: usize = 0;
    while i < chars.len()
        invariant
            chars@ == s@,
            i <= s@.len(),
            cur@.len() > 0 <==> i > 0 && !is_white_space(s@[i - 1]),
            words(s@.take(i as int)) == if cur@.len() > 0 {
                views(out@).push(cur@)
            } else {
                views(out@)
            },
        decreases s@.len() - i,
    {
        let c = chars[i];
        let ghost next = s@.take(i + 1);
        assert(next.drop_last() =~= s@.take(i as int));
        if c.is_whitespace() {
            if !cur.as_str().is_empty() {
                out.push(cur);
                cur = String::new();
            }
        } else {
            let ghost old_cur = cur@;
            cur.push(c);
            proof {
                if old_cur.len() > 0 {
                    assert(next[next.len() - 2] == s@[i - 1]);
                    assert(views(out@).push(old_cur).drop_last() =~= views(out@));
                } else {
                    assert(cur@ =~= seq![c]);
                    if i > 0 {
                        assert(next[next.len() - 2] == s@[i - 1]);
                    }
                }
            }
        }
        i += 1;
    }
    assert(s@.take(i as int) =~= s@);
    if !cur.as_str().is_empty() {
        out.push(cur);
    }
    out
}

/// The parts one after the other, with `sep` between neighbours.
pub open spec fn join(parts: Seq<Seq<char>>, sep: Seq<char>) -> Seq<char>
    decreases parts.len(),
{
    if parts.len() == 0 {
        Seq::empty()
    } else if parts.len() == 1 {
        parts[0]
    } else {
        join(parts.drop_last(), sep) + sep + parts.last()
    }
}

/// The parts one after the other, with `sep` between neighbours.
pub fn joined(parts: &[String], sep: &str) -> (r: String)
    ensures
        r@ == join(views(parts@), sep@),
{
    let mut out = String::new();
    let mut i: usize = 0;
    while i < parts.len()
        invariant
            i <= parts@.len(),
            out@ == join(views(parts@).take(i as int), sep@),
        decreases parts@.len() - i,
    {
        let ghost next = views(parts@).take(i + 1);
        assert(next.drop_last() =~= views(parts@).take(i as int));
        if i > 0 {
            out.append(sep);
        }
        out.append(parts[i].as_str());
        i += 1;
        assert(out@ =~= join(next, sep@));
    }
    assert(views(parts@).take(i as int) =~= views(parts@));
    out
}

/// The text with every run of white space folded to one blank and none at
/// either end.
pub open spec fn collapse(s: Seq<char>) -> Seq<char> {
    join(words(s), " "@)
}

/// The text with every run of white space folded to one blank and none at
/// either end.
pub fn collapsed(s: &str) -> (r: String)
    ensures
        r@ == collapse(s@),
{
    joined(words_of(s).as_slice(), " ")
}

/// Whether the text is not empty and holds no white space.
pub open spec fn is_word(w: Seq<char>) -> bool {
    w.len() > 0 && forall|i: int| 0 <= i < w.len() ==> !is_white_space(#[trigger] w[i])
}

pub proof fn lemma_words(s: Seq<char>)
    ensures
        forall|i: int| 0 <= i < words(s).len() ==> is_word(#[trigger] words(s)[i]),
        s.len() > 0 && !is_white_space(s.last()) ==> words(s).len() > 0,
    decreases s.len(),
{
    if s.len() > 0 {
        let front = s.drop_last();
        lemma_words(front);
        let before = words(front);
        let c = s.last();
        if !is_white_space(c) {
            if s.len() == 1 || is_white_space(s[s.len() - 2]) {
                assert(is_word(seq![c]));
            } else {
                assert(front.last() == s[s.len() - 2]);
                let w = before.last();
                assert(is_word(w)) by {
                    assert(before[before.len() - 1] == w);
                }
                assert(is_word(w.push(c)));
            }
            assert forall|i: int| 0 <= i < words(s).len() implies is_word(
                #[trigger] words(s)[i],
            ) by {
                if i < words(s).len() - 1 {
                    assert(words(s)[i] == before[i]);
                }
            }
        }
    }
}

proof fn lemma_words_append(s: Seq<char>, w: Seq<char>)
    requires
        is_word(w),
        s.len() == 0 || is_white_space(s.last()),
    ensures
        words(s + w) == words(s).push(w),
    decreases w.len(),
{
    let all = s + w;
    let front = w.drop_last();
    assert(all.drop_last() =~= s + front);
    assert(all.last() == w.last());
    assert(w[w.len() - 1] == w.last());
    if w.len() == 1 {
        assert(s + front =~= s);
        assert(w =~= seq![w.last()]);
        if all.len() > 1 {
            assert(all[all.len() - 2] == s.last());
        }
    } else {
        assert forall|i: int| 0 <= i < front.len() implies !is_white_space(#[trigger] front[i]) by {
            assert(front[i] == w[i]);
        }
        lemma_words_append(s, front);
        assert(all[all.len() - 2] == w[w.len() - 2]);
        assert(words(s).push(front).drop_last() =~= words(s));
        assert(front.push(w.last()) =~= w);
    }
}

/// Words that are joined by blanks are the words of the text.
pub proof fn lemma_words_join(parts: Seq<Seq<char>>)
    requires
        forall|i: int| 0 <= i < parts.len() ==> is_word(#[trigger] parts[i]),
    ensures
        words(join(parts, " "@)) == parts,
        parts.len() > 0 ==> {
            let s = join(parts, " "@);
            s.len() > 0 && !is_white_space(s[0]) && !is_white_space(s.last())
        },
    decreases parts.len(),
{
    reveal_strlit(" ");
    if parts.len() == 0 {
        assert(words(join(parts, " "@)) =~= parts);
    } else if parts.len() == 1 {
        let empty = Seq::<char>::empty();
        assert(empty + parts[0] =~= parts[0]);
        lemma_words_append(empty, parts[0]);
        assert(words(empty).push(parts[0]) =~= parts);
        assert(parts[0][0] == parts[0].first());
    } else {
        let front = parts.drop_last();
        let w = parts.last();
        assert forall|i: int| 0 <= i < front.len() implies is_word(#[trigger] front[i]) by {
            assert(front[i] == parts[i]);
        }
        assert(is_word(w)) by {
            assert(parts[parts.len() - 1] == w);
        }
        lemma_words_join(front);
        let s = join(front, " "@) + " "@;
        assert(s.last() == ' ');
        assert(s.drop_last() =~= join(front, " "@));
        assert(words(s) == words(join(front, " "@)));
        lemma_words_append(s, w);
        assert(front.push(w) =~= parts);
        let all = join(parts, " "@);
        assert(all =~= s + w);
        assert(all[0] == join(front, " "@)[0]);
        assert(all.last() == w[w.len() - 1]);
    }
}

/// Folding white space twice is folding it once, and leaves none at either
/// end.
pub proof fn law_collapse_is_stable(s: Seq<char>)
    ensures
        collapse(collapse(s)) == collapse(s),
        trim(collapse(s)) == collapse(s),
        words(collapse(s)) == words(s),
{
    lemma_words(s);
    lemma_words_join(words(s));
    lemma_trim_fixed(collapse(s));
}

/// The decimal digit of a number below ten.
pub open spec fn digit(d: nat) -> char {
    (('0' as nat) + d) as char
}

/// A number in decimal, without leading zeros.
pub open spec fn decimal(n: nat) -> Seq<char>
    decreases n,
{
    if n < 10 {
        seq![digit(n)]
    } else {
        decimal(n / 10).push(digit(n % 10))
    }
}

/// Adds a number in decimal at the end.
pub fn push_decimal(out: &mut String, n: u64)
    ensures
        final(out)@ == old(out)@ + decimal(n as nat),
    decreases n,
{
    if n >= 10 {
        push_decimal(out, n / 10);
    }
    let d: u8 = (n % 10) as u8;
    out.push((48u8 + d) as char);
    assert(out@ =~= old(out)@ + decimal(n as nat));
}

/// A number in decimal.
pub fn decimal_text(n: u64) -> (r: String)
    ensures
        r@ == decimal(n as nat),
{
    let mut out = String::new();
    push_decimal(&mut out, n);
    assert(out@ =~= decimal(n as nat));
    out
}

/// Whether the text begins with `prefix`.
pub fn begins_with(s: &str, prefix: &str) -> (r: bool)
    ensures
        r == prefix@.is_prefix_of(s@),
{
    let sc = chars_of(s);
    let pc = chars_of(prefix);
    let r = matches_at(sc.as_slice(), pc.as_slice(), 0);
    assert(r == prefix@.is_prefix_of(s@));
    r
}

/// Whether the text ends with `suffix`.
pub fn finishes_with(s: &str, suffix: &str) -> (r: bool)
    ensures
        r == suffix@.is_suffix_of(s@),
{
    let sc = chars_of(s);
    let pc = chars_of(suffix);
    if pc.len() > sc.len() {
        return false;
    }
    let r = matches_at(sc.as_slice(), pc.as_slice(), sc.len() - pc.len());
    assert(r == suffix@.is_suffix_of(s@));
    r
}

/// The text from the character at position `from` on.
pub fn text_from(s: &str, from: usize) -> (r: String)
    requires
        from <= s@.len(),
    ensures
        r@ == s@.skip(from as int),
{
    let chars = chars_of(s);
    let r = string_of(chars.as_slice(), from, chars.len());
    assert(r@ =~= s@.skip(from as int));
    r
}

/// A character with the ASCII capitals mapped to small letters.
pub open spec fn ascii_lower_char(c: char) -> char {
    if 'A' <= c <= 'Z' {
        ((c as u32) + 32) as char
    } else {
        c
    }
}

/// The text with the ASCII capitals mapped to small letters.
pub open spec fn ascii_lower(s: Seq<char>) -> Seq<char> {
    Seq::new(s.len(), |i: int| ascii_lower_char(s[i]))
}

/// The length of the text in UTF-8.
pub open spec fn byte_len(s: Seq<char>) -> nat {
    vstd::utf8::encode_utf8(s).len()
}

/// The length of the string in UTF-8.
pub fn bytes_in(s: &str) -> (r: usize)
    ensures
        r == byte_len(s@),
{
    s.as_bytes().len()
}

/// The text between two places in its UTF-8 form.
pub open spec fn byte_range(s: Seq<char>, from: int, to: int) -> Seq<char> {
    vstd::utf8::decode_utf8(vstd::utf8::encode_utf8(s).subrange(from, to))
}

/// Whether a character begins at this place in the UTF-8 form, or the text
/// ends there.
pub open spec fn boundary(s: Seq<char>, at: int) -> bool {
    vstd::utf8::is_char_boundary(vstd::utf8::encode_utf8(s), at)
}

/// The text between two places in its UTF-8 form.
pub fn text_between(s: &str, from: usize, to: usize) -> (r: String)
    requires
        from <= to <= byte_len(s@),
        boundary(s@, from as int),
        boundary(s@, to as int),
    ensures
        r@ == byte_range(s@, from as int, to as int),
{
    let ghost bytes = s.spec_bytes();
    let (_, tail) = s.split_at(from);
    let n: usize = to - from;
    let ghost rest = tail.spec_bytes();
    proof {
        vstd::utf8::encode_utf8_valid_utf8(s@);
        vstd::utf8::encode_utf8_valid_utf8(tail@);
        assert(rest =~= bytes.subrange(from as int, bytes.len() as int));
        vstd::utf8::is_char_boundary_start_end_of_seq(rest);
        if 0 < n < rest.len() {
            vstd::utf8::is_char_boundary_iff_not_is_continuation_byte(bytes, to as int);
            vstd::utf8::is_char_boundary_iff_not_is_continuation_byte(rest, n as int);
            assert(rest[n as int] == bytes[to as int]);
        }
    }
    let (piece, _) = tail.split_at(n);
    proof {
        assert(piece.spec_bytes() =~= bytes.subrange(from as int, to as int));
        vstd::utf8::encode_utf8_decode_utf8(piece@);
    }
    piece.to_owned()
}

/// The string with the ASCII capitals mapped to small letters.
pub fn ascii_lowered(s: &str) -> (r: String)
    ensures
        r@ == ascii_lower(s@),
{
    let chars = chars_of(s);
    let mut out = String::new();
    let mut i: usize = 0;
    while i < chars.len()
        invariant
            chars@ == s@,
            i <= s@.len(),
            out@ == ascii_lower(s@).take(i as int),
        decreases s@.len() - i,
    {
        let c = chars[i];
        if 'A' <= c && c <= 'Z' {
            let b: u8 = c as u8;
            out.push((b + 32) as char);
        } else {
            out.push(c);
        }
        i += 1;
        assert(out@ =~= ascii_lower(s@).take(i as int));
    }
    assert(out@ =~= ascii_lower(s@));
    out
}

/// The length of a character in UTF-8.
pub open spec fn width(c: char) -> nat {
    vstd::utf8::encode_scalar(c as u32).len()
}

/// The length of a character in UTF-8.
pub fn char_width(c: char) -> (r: usize)
    ensures
        r == width(c),
        1 <= r <= 4,
{
    let n: u32 = c as u32;
    if n <= 0x7f {
        1
    } else if n <= 0x7ff {
        2
    } else if n <= 0xffff {
        3
    } else {
        4
    }
}

pub proof fn lemma_byte_len_push(s: Seq<char>, c: char)
    ensures
        byte_len(s.push(c)) == byte_len(s) + width(c),
    decreases s.len(),
{
    if s.len() == 0 {
        reveal_with_fuel(vstd::utf8::encode_utf8, 2);
        assert(s.push(c).drop_first() =~= s);
    } else {
        assert(s.push(c).drop_first() =~= s.drop_first().push(c));
        lemma_byte_len_push(s.drop_first(), c);
    }
}

/// Texts take at least one byte for each character.
pub proof fn lemma_byte_len_at_least(s: Seq<char>)
    ensures
        byte_len(s) >= s.len(),
    decreases s.len(),
{
    if s.len() > 0 {
        lemma_byte_len_at_least(s.drop_first());
    }
}

proof fn lemma_byte_len_monotonic(s: Seq<char>, k: int)
    requires
        0 <= k <= s.len(),
    ensures
        byte_len(s.take(k)) <= byte_len(s),
    decreases s.len(),
{
    if k == s.len() {
        assert(s.take(k) =~= s);
    } else {
        assert(s.drop_last().take(k) =~= s.take(k));
        lemma_byte_len_monotonic(s.drop_last(), k);
        assert(s.drop_last().push(s.last()) =~= s);
        lemma_byte_len_push(s.drop_last(), s.last());
    }
}

/// Whether the first `n` characters take at most `limit` bytes.
pub fn bytes_at_most(chars: &[char], n: usize, limit: usize) -> (r: bool)
    requires
        n <= chars@.len(),
    ensures
        r == (byte_len(chars@.take(n as int)) <= limit),
{
    let mut total: usize = 0;
    let mut i: usize = 0;
    while i < n
        invariant
            i <= n <= chars@.len(),
            total == byte_len(chars@.take(i as int)),
            total <= limit,
        decreases n - i,
    {
        let w: usize = char_width(chars[i]);
        proof {
            assert(chars@.take(i + 1) =~= chars@.take(i as int).push(chars@[i as int]));
            lemma_byte_len_push(chars@.take(i as int), chars@[i as int]);
        }
        if w > limit - total {
            proof {
                assert(chars@.take(n as int).take(i + 1) =~= chars@.take(i + 1));
                lemma_byte_len_monotonic(chars@.take(n as int), i + 1);
            }
            return false;
        }
        total += w;
        i += 1;
    }
    true
}

/// The longest prefix that takes at most `n` bytes.
pub open spec fn byte_prefix(s: Seq<char>, n: nat) -> Seq<char>
    decreases s.len(),
{
    if s.len() == 0 || width(s[0]) > n {
        Seq::empty()
    } else {
        seq![s[0]] + byte_prefix(s.drop_first(), (n - width(s[0])) as nat)
    }
}

/// The longest prefix of `chars[from..]` that takes at most `n` bytes.
pub fn prefix_of_bytes(chars: &[char], from: usize, n: usize) -> (r: String)
    requires
        from <= chars@.len(),
    ensures
        r@ == byte_prefix(chars@.skip(from as int), n as nat),
{
    let ghost whole = byte_prefix(chars@.skip(from as int), n as nat);
    let mut out = String::new();
    let mut i: usize = from;
    let mut left: usize = n;
    assert(out@ + whole =~= whole);
    while i < chars.len() && char_width(chars[i]) <= left
        invariant
            from <= i <= chars@.len(),
            out@ + byte_prefix(chars@.skip(i as int), left as nat) == whole,
        decreases chars@.len() - i,
    {
        let ghost s = chars@.skip(i as int);
        let ghost so_far = out@;
        let w: usize = char_width(chars[i]);
        out.push(chars[i]);
        assert(s.drop_first() =~= chars@.skip(i + 1));
        assert(out@ + byte_prefix(chars@.skip(i + 1), (left - w) as nat) =~= so_far + byte_prefix(
            s,
            left as nat,
        ));
        left -= w;
        i += 1;
    }
    assert(out@ =~= whole);
    out
}

/// The first place of `x` in `s`, or the length of `s` where it is missing.
pub open spec fn first_index(s: Seq<Seq<char>>, x: Seq<char>) -> nat
    decreases s.len(),
{
    if s.len() == 0 {
        0
    } else if s[0] == x {
        0
    } else {
        1 + first_index(s.drop_first(), x)
    }
}

pub proof fn lemma_first_index(s: Seq<Seq<char>>, x: Seq<char>)
    ensures
        first_index(s, x) <= s.len(),
        first_index(s, x) < s.len() ==> s[first_index(s, x) as int] == x,
        forall|j: int| 0 <= j < first_index(s, x) ==> #[trigger] s[j] != x,
        first_index(s, x) < s.len() <==> s.contains(x),
    decreases s.len(),
{
    if s.len() > 0 && s[0] != x {
        let t = s.drop_first();
        lemma_first_index(t, x);
        assert forall|j: int| 0 <= j < first_index(s, x) implies #[trigger] s[j] != x by {
            if j > 0 {
                assert(t[j - 1] == s[j]);
            }
        }
        if s.contains(x) {
            let j = choose|j: int| 0 <= j < s.len() && s[j] == x;
            assert(t[j - 1] == x);
        }
    }
}

/// The first place of `x` in `list`, or the length of `list`.
pub fn index_in(list: &[String], x: &str) -> (r: usize)
    ensures
        r == first_index(views(list@), x@),
{
    proof {
        lemma_first_index(views(list@), x@);
    }
    let mut i: usize = 0;
    while i < list.len()
        invariant
            i <= list@.len(),
            forall|j: int| 0 <= j < i ==> views(list@)[j] != x@,
            first_index(views(list@), x@) <= list@.len(),
            first_index(views(list@), x@) < list@.len() ==> views(list@)[first_index(
                views(list@),
                x@,
            ) as int] == x@,
            forall|j: int|
                0 <= j < first_index(views(list@), x@) ==> #[trigger] views(list@)[j] != x@,
        decreases list@.len() - i,
    {
        if same_text(list[i].as_str(), x) {
            assert(views(list@)[i as int] == x@);
            return i;
        }
        i += 1;
    }
    i
}

/// Lexicographic order by code point, which is also the order of the UTF-8
/// bytes.
pub open spec fn precedes(a: Seq<char>, b: Seq<char>) -> bool
    decreases a.len(),
{
    if b.len() == 0 {
        false
    } else if a.len() == 0 {
        true
    } else if a[0] == b[0] {
        precedes(a.drop_first(), b.drop_first())
    } else {
        a[0] < b[0]
    }
}

/// Of two different texts exactly one comes first; no text comes before
/// itself.
pub proof fn lemma_precedes_total(a: Seq<char>, b: Seq<char>)
    ensures
        precedes(a, b) || precedes(b, a) || a == b,
        !(precedes(a, b) && precedes(b, a)),
        !precedes(a, a),
    decreases a.len(),
{
    if a.len() > 0 {
        lemma_precedes_total(a.drop_first(), a.drop_first());
        if b.len() > 0 {
            lemma_precedes_total(a.drop_first(), b.drop_first());
            if a[0] == b[0] && a.drop_first() == b.drop_first() {
                assert(a =~= seq![a[0]] + a.drop_first());
                assert(b =~= seq![b[0]] + b.drop_first());
            }
        }
    } else if b.len() == 0 {
        assert(a =~= b);
    }
}

pub proof fn lemma_precedes_transitive(a: Seq<char>, b: Seq<char>, c: Seq<char>)
    requires
        precedes(a, b),
        precedes(b, c),
    ensures
        precedes(a, c),
    decreases a.len(),
{
    if a.len() > 0 && a[0] == b[0] && b[0] == c[0] {
        lemma_precedes_transitive(a.drop_first(), b.drop_first(), c.drop_first());
    }
}

/// Whether `a` comes before `b` in lexicographic order.
pub fn comes_before(a: &str, b: &str) -> (r: bool)
    ensures
        r == precedes(a@, b@),
{
    let x = chars_of(a);
    let y = chars_of(b);
    let mut i: usize = 0;
    assert(a@.skip(0) =~= a@);
    assert(b@.skip(0) =~= b@);
    while i < x.len() && i < y.len()
        invariant
            x@ == a@,
            y@ == b@,
            i <= a@.len(),
            i <= b@.len(),
            precedes(a@, b@) == precedes(a@.skip(i as int), b@.skip(i as int)),
        decreases a@.len() - i,
    {
        if x[i] != y[i] {
            return x[i] < y[i];
        }
        assert(a@.skip(i as int).drop_first() =~= a@.skip(i + 1));
        assert(b@.skip(i as int).drop_first() =~= b@.skip(i + 1));
        i += 1;
    }
    i < y.len()
}

/// The value of a digit in a base of at most 16.
pub open spec fn digit_value(c: char, base: nat) -> Option<nat> {
    let v: int = if '0' <= c <= '9' {
        c as int - '0' as int
    } else if 'a' <= c <= 'f' {
        c as int - 'a' as int + 10
    } else if 'A' <= c <= 'F' {
        c as int - 'A' as int + 10
    } else {
        16
    };
    if v < base {
        Some(v as nat)
    } else {
        None
    }
}

/// The number that a text of digits writes, if it is one.
pub open spec fn digits_value(s: Seq<char>, base: nat) -> Option<nat>
    decreases s.len(),
{
    if s.len() == 0 {
        Some(0)
    } else {
        match (digits_value(s.drop_last(), base), digit_value(s.last(), base)) {
            (Some(n), Some(d)) => Some(n * base + d),
            _ => None,
        }
    }
}

/// The number that a text writes, up to a limit: an optional plus sign and at
/// least one digit.
pub open spec fn number_value(s: Seq<char>, base: nat, limit: nat) -> Option<nat> {
    let digits = if s.len() > 0 && s[0] == '+' {
        s.skip(1)
    } else {
        s
    };
    match digits_value(digits, base) {
        Some(n) => if digits.len() > 0 && n <= limit {
            Some(n)
        } else {
            None
        },
        None => None,
    }
}

proof fn lemma_digits_prefix(s: Seq<char>, base: nat, k: int)
    requires
        0 <= k <= s.len(),
        base >= 1,
    ensures
        digits_value(s.take(k), base) is None ==> digits_value(s, base) is None,
        digits_value(s, base) is Some ==> digits_value(s.take(k), base) is Some && digits_value(
            s.take(k),
            base,
        )->0 <= digits_value(s, base)->0,
    decreases s.len(),
{
    if k == s.len() {
        assert(s.take(k) =~= s);
    } else {
        let front = s.drop_last();
        assert(front.take(k) =~= s.take(k));
        lemma_digits_prefix(front, base, k);
        if digits_value(s, base) is Some {
            let n = digits_value(front, base)->0;
            let d = digit_value(s.last(), base)->0;
            assert(n * base + d >= n) by (nonlinear_arith)
                requires
                    base >= 1,
                    d >= 0,
                    n >= 0,
            ;
        }
    }
}

fn digit_of(c: char, base: u32) -> (r: Option<u32>)
    requires
        base <= 16,
    ensures
        match r {
            Some(d) => digit_value(c, base as nat) == Some(d as nat),
            None => digit_value(c, base as nat) is None,
        },
{
    let v: u32 = if '0' <= c && c <= '9' {
        c as u32 - '0' as u32
    } else if 'a' <= c && c <= 'f' {
        c as u32 - 'a' as u32 + 10
    } else if 'A' <= c && c <= 'F' {
        c as u32 - 'A' as u32 + 10
    } else {
        16
    };
    if v < base {
        Some(v)
    } else {
        None
    }
}

/// Reads `chars[from..to]` as a number.
pub fn read_number(chars: &[char], from: usize, to: usize, base: u32, limit: u64) -> (r: Option<
    u64,
>)
    requires
        from <= to <= chars@.len(),
        1 <= base <= 16,
    ensures
        match r {
            Some(n) => number_value(
                chars@.subrange(from as int, to as int),
                base as nat,
                limit as nat,
            ) == Some(n as nat) && n <= limit,
            None => number_value(
                chars@.subrange(from as int, to as int),
                base as nat,
                limit as nat,
            ) is None,
        },
{
    let ghost s = chars@.subrange(from as int, to as int);
    let start: usize = if from < to && chars[from] == '+' {
        from + 1
    } else {
        from
    };
    let ghost digits = chars@.subrange(start as int, to as int);
    proof {
        if s.len() > 0 {
            assert(s[0] == chars@[from as int]);
        }
        assert(s.skip(start - from) =~= digits);
        assert(s.skip(0) =~= s);
    }
    if start == to {
        return None;
    }
    let mut n: u128 = 0;
    let mut i: usize = start;
    while i < to
        invariant
            start <= i <= to <= chars@.len(),
            1 <= base <= 16,
            digits == chars@.subrange(start as int, to as int),
            n <= limit,
            digits_value(digits.take(i - start), base as nat) == Some(n as nat),
            number_value(s, base as nat, limit as nat) == match digits_value(digits, base as nat) {
                Some(n) => if digits.len() > 0 && n <= limit {
                    Some(n)
                } else {
                    None
                },
                None => None,
            },
            s == chars@.subrange(from as int, to as int),
        decreases to - i,
    {
        let ghost next = digits.take(i + 1 - start);
        proof {
            assert(next.drop_last() =~= digits.take(i - start));
            assert(next.last() == chars@[i as int]);
            lemma_digits_prefix(digits, base as nat, i + 1 - start);
        }
        match digit_of(chars[i], base) {
            None => {
                return None;
            },
            Some(d) => {
                assert(n * (base as u128) <= 0xffff_ffff_ffff_ffff * 16) by (nonlinear_arith)
                    requires
                        n <= 0xffff_ffff_ffff_ffff,
                        base <= 16,
                ;
                n = n * (base as u128) + d as u128;
                if n > limit as u128 {
                    return None;
                }
            },
        }
        i += 1;
    }
    assert(digits.take(to - start) =~= digits);
    Some(n as u64)
}

/// Reads a string as a decimal number up to a limit.
pub fn parsed_number(s: &str, limit: u64) -> (r: Option<u64>)
    ensures
        match r {
            Some(n) => number_value(s@, 10, limit as nat) == Some(n as nat) && n <= limit,
            None => number_value(s@, 10, limit as nat) is None,
        },
{
    let chars = chars_of(s);
    let r = read_number(chars.as_slice(), 0, chars.len(), 10, limit);
    assert(chars@.subrange(0, chars@.len() as int) =~= s@);
    r
}

/// The number of characters of the first `n` parts.
pub open spec fn length_to(parts: Seq<Seq<char>>, n: int) -> nat
    decreases n,
{
    if n <= 0 {
        0
    } else {
        length_to(parts, n - 1) + parts[n - 1].len()
    }
}

pub proof fn lemma_length_to(a: Seq<Seq<char>>, b: Seq<Seq<char>>, n: int)
    requires
        0 <= n <= a.len(),
        n <= b.len(),
        a.take(n) == b.take(n),
    ensures
        length_to(a, n) == length_to(b, n),
    decreases n,
{
    if n > 0 {
        assert(a.take(n)[n - 1] == b.take(n)[n - 1]);
        assert(a.take(n - 1) =~= a.take(n).take(n - 1));
        assert(b.take(n - 1) =~= b.take(n).take(n - 1));
        lemma_length_to(a, b, n - 1);
    }
}

/// Joining loses nothing and adds only the separators: every part stands in
/// the joined text, in order, each one separator behind the part before it.
pub proof fn law_joining_loses_nothing(parts: Seq<Seq<char>>, sep: Seq<char>)
    ensures
        parts.len() == 0 ==> join(parts, sep).len() == 0,
        parts.len() > 0 ==> join(parts, sep).len() == length_to(parts, parts.len() as int) + (
        parts.len() - 1) * sep.len(),
        forall|i: int|
            #![trigger parts[i]]
            0 <= i < parts.len() ==> occurs_at(
                join(parts, sep),
                parts[i],
                length_to(parts, i) + i * sep.len(),
            ),
        forall|i: int|
            #![trigger length_to(parts, i)]
            0 < i < parts.len() ==> occurs_at(
                join(parts, sep),
                sep,
                length_to(parts, i) + (i - 1) * sep.len(),
            ),
{
    let s = join(parts, sep);
    lemma_join_len(parts, sep);
    assert forall|i: int| #![trigger parts[i]] 0 <= i < parts.len() implies occurs_at(
        s,
        parts[i],
        length_to(parts, i) + i * sep.len(),
    ) by {
        lemma_join_part(parts, sep, i);
    }
    assert forall|i: int| #![trigger length_to(parts, i)] 0 < i < parts.len() implies occurs_at(
        s,
        sep,
        length_to(parts, i) + (i - 1) * sep.len(),
    ) by {
        lemma_join_sep(parts, sep, i);
    }
}

proof fn lemma_join_len(parts: Seq<Seq<char>>, sep: Seq<char>)
    ensures
        parts.len() == 0 ==> join(parts, sep).len() == 0,
        parts.len() > 0 ==> join(parts, sep).len() == length_to(parts, parts.len() as int) + (
        parts.len() - 1) * sep.len(),
    decreases parts.len(),
{
    let n = parts.len() as int;
    if n == 1 {
        reveal_with_fuel(length_to, 2);
        assert((n - 1) * sep.len() == 0) by (nonlinear_arith)
            requires
                n == 1,
        ;
    } else if n > 1 {
        let front = parts.drop_last();
        lemma_join_len(front, sep);
        assert(parts.take(n - 1) =~= front.take(n - 1));
        lemma_length_to(parts, front, n - 1);
        assert((n - 1) * sep.len() == (n - 2) * sep.len() + sep.len()) by (nonlinear_arith);
    }
}

pub proof fn lemma_join_part(parts: Seq<Seq<char>>, sep: Seq<char>, i: int)
    requires
        0 <= i < parts.len(),
    ensures
        occurs_at(join(parts, sep), parts[i], length_to(parts, i) + i * sep.len()),
    decreases parts.len(),
{
    let n = parts.len() as int;
    let s = join(parts, sep);
    let at = length_to(parts, i) + i * sep.len();
    if n == 1 {
        assert(i * sep.len() == 0) by (nonlinear_arith)
            requires
                i == 0,
        ;
        assert(s.subrange(0, s.len() as int) =~= parts[0]);
    } else {
        let front = parts.drop_last();
        let t = join(front, sep);
        assert(parts.take(i) =~= front.take(i));
        lemma_length_to(parts, front, i);
        if i < n - 1 {
            lemma_join_part(front, sep, i);
            assert(s.subrange(at, at + parts[i].len()) =~= t.subrange(at, at + parts[i].len()));
        } else {
            lemma_join_len(front, sep);
            assert(i * sep.len() == (i - 1) * sep.len() + sep.len()) by (nonlinear_arith);
            assert(s.subrange(at, at + parts[i].len()) =~= parts[i]);
        }
    }
}

proof fn lemma_join_sep(parts: Seq<Seq<char>>, sep: Seq<char>, i: int)
    requires
        0 < i < parts.len(),
    ensures
        occurs_at(join(parts, sep), sep, length_to(parts, i) + (i - 1) * sep.len()),
    decreases parts.len(),
{
    let n = parts.len() as int;
    let s = join(parts, sep);
    let at = length_to(parts, i) + (i - 1) * sep.len();
    let front = parts.drop_last();
    let t = join(front, sep);
    assert(parts.take(i) =~= front.take(i));
    lemma_length_to(parts, front, i);
    if i < n - 1 {
        lemma_join_sep(front, sep, i);
        assert(s.subrange(at, at + sep.len()) =~= t.subrange(at, at + sep.len()));
    } else {
        lemma_join_len(front, sep);
        assert(s.subrange(at, at + sep.len()) =~= sep);
    }
}

/// Cutting a text loses nothing: the pieces joined again are the text, and no
/// piece holds the separator.
pub proof fn law_splitting_loses_nothing(s: Seq<char>, sep: char)
    ensures
        join(split(s, sep), seq![sep]) == s,
        forall|i: int|
            0 <= i < split(s, sep).len() ==> !(#[trigger] split(s, sep)[i]).contains(sep),
    decreases s.len(),
{
    if s.len() == 0 {
        assert(join(split(s, sep), seq![sep]) =~= s);
    } else {
        let before = split(s.drop_last(), sep);
        lemma_split_len(s.drop_last(), sep);
        law_splitting_loses_nothing(s.drop_last(), sep);
        let c = s.last();
        let all = split(s, sep);
        assert(s =~= s.drop_last().push(c));
        if c == sep {
            assert(all.drop_last() =~= before);
            assert(join(all, seq![sep]) =~= s);
        } else {
            let grown = before.last().push(c);
            assert(all.drop_last() =~= before.drop_last());
            if before.len() == 1 {
                assert(join(all, seq![sep]) =~= s);
            } else {
                assert(join(all, seq![sep]) =~= s);
            }
            assert forall|i: int| 0 <= i < all.len() implies !(#[trigger] all[i]).contains(
                sep,
            ) by {
                if i < all.len() - 1 {
                    assert(all[i] == before[i]);
                } else {
                    assert(!before[before.len() - 1].contains(sep));
                    assert forall|k: int| 0 <= k < grown.len() implies grown[k] != sep by {
                        if k < grown.len() - 1 {
                            assert(grown[k] == before.last()[k]);
                            assert(before.last().contains(before.last()[k]));
                        }
                    }
                }
            }
        }
    }
}

/// A text without its white space.
pub open spec fn inked(s: Seq<char>) -> Seq<char>
    decreases s.len(),
{
    if s.len() == 0 {
        s
    } else if is_white_space(s.last()) {
        inked(s.drop_last())
    } else {
        inked(s.drop_last()).push(s.last())
    }
}

/// Folding white space loses no other character, and the words of a text are
/// all its characters but the white space, in order.
pub proof fn law_folding_keeps_the_ink(s: Seq<char>)
    ensures
        join(words(s), Seq::empty()) == inked(s),
        inked(collapse(s)) == inked(s),
        forall|i: int| 0 <= i < words(s).len() ==> is_word(#[trigger] words(s)[i]),
{
    lemma_words_ink(s);
    law_collapse_is_stable(s);
    lemma_words_ink(collapse(s));
    lemma_words(s);
}

proof fn lemma_words_ink(s: Seq<char>)
    ensures
        join(words(s), Seq::empty()) == inked(s),
    decreases s.len(),
{
    if s.len() > 0 {
        let front = s.drop_last();
        lemma_words_ink(front);
        lemma_words(front);
        let before = words(front);
        let c = s.last();
        if !is_white_space(c) {
            if s.len() == 1 || is_white_space(s[s.len() - 2]) {
                let all = before.push(seq![c]);
                assert(all.drop_last() =~= before);
                assert(join(all, Seq::empty()) =~= inked(front).push(c));
            } else {
                assert(front.last() == s[s.len() - 2]);
                let all = before.drop_last().push(before.last().push(c));
                assert(all.drop_last() =~= before.drop_last());
                if before.len() == 1 {
                    assert(join(all, Seq::empty()) =~= inked(front).push(c));
                } else {
                    assert(join(all, Seq::empty()) =~= inked(front).push(c));
                }
            }
        }
    }
}

/// A written number is read as the same number.
pub proof fn law_numbers_round_trip(n: nat, limit: nat)
    ensures
        n <= limit ==> number_value(decimal(n), 10, limit) == Some(n),
        n > limit ==> number_value(decimal(n), 10, limit) is None,
        decimal(n).len() > 0,
        n > 0 ==> decimal(n)[0] != '0',
{
    lemma_decimal(n);
}

proof fn lemma_decimal(n: nat)
    ensures
        digits_value(decimal(n), 10) == Some(n),
        decimal(n).len() > 0,
        '0' <= decimal(n)[0] <= '9',
        n > 0 ==> decimal(n)[0] != '0',
    decreases n,
{
    if n < 10 {
        reveal_with_fuel(digits_value, 2);
        assert(decimal(n).drop_last() =~= Seq::empty());
    } else {
        lemma_decimal(n / 10);
        assert(decimal(n).drop_last() =~= decimal(n / 10));
    }
}

/// Texts are ordered as in a dictionary: by the first character that differs,
/// and a text comes before what it is the beginning of.
pub proof fn law_texts_are_ordered_as_in_a_dictionary(
    common: Seq<char>,
    x: char,
    y: char,
    a: Seq<char>,
    b: Seq<char>,
)
    ensures
        x < y ==> precedes(common.push(x) + a, common.push(y) + b),
        precedes(common, common.push(x) + a),
        !precedes(common, common),
    decreases common.len(),
{
    let l = common.push(x) + a;
    let r = common.push(y) + b;
    if common.len() > 0 {
        let rest = common.drop_first();
        law_texts_are_ordered_as_in_a_dictionary(rest, x, y, a, b);
        assert(l.drop_first() =~= rest.push(x) + a);
        assert(r.drop_first() =~= rest.push(y) + b);
        assert(l[0] == common[0] && r[0] == common[0]);
    } else {
        assert(l[0] == x && r[0] == y);
    }
}

/// Trimming takes away the white space around a text, and that alone.
pub proof fn law_trimming_takes_the_white_space_around(
    before: Seq<char>,
    text: Seq<char>,
    after: Seq<char>,
)
    requires
        is_blank(before),
        is_blank(after),
        text.len() > 0 ==> !is_white_space(text[0]) && !is_white_space(text.last()),
    ensures
        trim(before + text + after) == text,
{
    let s = before + text + after;
    let cut = lemma_trim(s);
    if text.len() == 0 {
        assert forall|i: int| 0 <= i < s.len() implies is_white_space(#[trigger] s[i]) by {
            if i < before.len() {
                assert(s[i] == before[i]);
            } else {
                assert(s[i] == after[i - before.len()]);
            }
        }
        assert(trim(s) =~= text);
    } else {
        let a = before.len() as int;
        let b = a + text.len();
        assert(s[a] == text[0]);
        assert(s[b - 1] == text.last());
        assert(!is_blank(s));
        assert(cut.0 <= a && b <= cut.1);
        if cut.0 < a {
            assert(trim(s)[0] == s[cut.0]);
            assert(s[cut.0] == before[cut.0]);
        }
        if cut.1 > b {
            assert(trim(s).last() == s[cut.1 - 1]);
            assert(s[cut.1 - 1] == after[cut.1 - 1 - b]);
        }
        assert(trim(s) =~= text);
    }
}

/// Lowering changes the capital letters of ASCII into their small letters and
/// leaves every other character alone.
pub proof fn law_lowering_changes_capitals_alone(s: Seq<char>, i: int)
    requires
        0 <= i < s.len(),
    ensures
        ascii_lower(s).len() == s.len(),
        !('A' <= s[i] <= 'Z') ==> ascii_lower(s)[i] == s[i],
        'A' <= s[i] <= 'Z' ==> 'a' <= ascii_lower(s)[i] <= 'z' && ascii_lower(s)[i] as int
            - 'a' as int == s[i] as int - 'A' as int,
{
}

/// A written number is digits and nothing else.
pub proof fn lemma_decimal_digits(n: nat)
    ensures
        decimal(n).len() > 0,
        forall|i: int| 0 <= i < decimal(n).len() ==> '0' <= #[trigger] decimal(n)[i] <= '9',
        !is_white_space(decimal(n)[0]),
        !is_white_space(decimal(n).last()),
    decreases n,
{
    if n >= 10 {
        lemma_decimal_digits(n / 10);
        let front = decimal(n / 10);
        assert forall|i: int| 0 <= i < decimal(n).len() implies '0' <= #[trigger] decimal(n)[i]
            <= '9' by {
            if i < front.len() {
                assert(decimal(n)[i] == front[i]);
            }
        }
        assert(decimal(n)[0] == front[0]);
    }
}

/// A text holds what stands in its middle.
pub proof fn lemma_has_middle(a: Seq<char>, b: Seq<char>, c: Seq<char>)
    ensures
        has_text(a + b + c, b),
        has_text(a + b, b),
        has_text(b + c, b),
{
    let at = a.len() as int;
    assert((a + b + c).subrange(at, at + b.len()) =~= b);
    assert(occurs_at(a + b + c, b, at));
    assert((a + b).subrange(at, at + b.len()) =~= b);
    assert(occurs_at(a + b, b, at));
    assert((b + c).subrange(0, b.len() as int) =~= b);
    assert(occurs_at(b + c, b, 0));
}

/// A text holds what is held by a text that it holds.
pub proof fn lemma_has_through(s: Seq<char>, t: Seq<char>, u: Seq<char>)
    requires
        has_text(s, t),
        has_text(t, u),
    ensures
        has_text(s, u),
{
    let i = choose|i: int| occurs_at(s, t, i);
    let j = choose|j: int| occurs_at(t, u, j);
    assert(s.subrange(i + j, i + j + u.len()) =~= t.subrange(j, j + u.len()));
    assert(occurs_at(s, u, i + j));
}

/// A joined text holds each of its parts.
pub proof fn lemma_join_has(parts: Seq<Seq<char>>, sep: Seq<char>, i: int)
    requires
        0 <= i < parts.len(),
    ensures
        has_text(join(parts, sep), parts[i]),
{
    lemma_join_part(parts, sep, i);
}

/// A longer text holds what its front holds.
pub proof fn lemma_has_more(s: Seq<char>, t: Seq<char>, u: Seq<char>)
    requires
        has_text(s, u),
    ensures
        has_text(s + t, u),
{
    lemma_has_middle(Seq::empty(), s, t);
    lemma_has_through(s + t, s, u);
}

/// Cutting goes piece by piece: the pieces of two texts with the separator
/// between them are those of the one and then those of the other.
pub proof fn law_splitting_goes_piece_by_piece(a: Seq<char>, b: Seq<char>, sep: char)
    ensures
        split(a + seq![sep] + b, sep) == split(a, sep) + split(b, sep),
    decreases b.len(),
{
    let all = a + seq![sep] + b;
    if b.len() == 0 {
        assert(all.drop_last() =~= a);
        assert(all.last() == sep);
        assert(split(all, sep) =~= split(a, sep) + split(b, sep));
    } else {
        assert(all.drop_last() =~= a + seq![sep] + b.drop_last());
        assert(all.last() == b.last());
        law_splitting_goes_piece_by_piece(a, b.drop_last(), sep);
        lemma_split_len(b.drop_last(), sep);
        assert(split(all, sep) =~= split(a, sep) + split(b, sep));
    }
}

/// A text without the separator is one piece.
pub proof fn lemma_whole_piece(s: Seq<char>, sep: char)
    requires
        !s.contains(sep),
    ensures
        split(s, sep) == seq![s],
{
    assert forall|i: int| 0 <= i < s.len() implies s[i] != sep by {
        assert(s.contains(s[i]));
    }
    lemma_one_piece(s, sep);
    law_splitting_loses_nothing(s, sep);
    assert(split(s, sep) =~= seq![s]);
}

/// Where a character is found.
pub proof fn lemma_find_is(s: Seq<char>, c: char, from: int, at: int)
    requires
        0 <= from <= at < s.len(),
        s[at] == c,
        forall|j: int| from <= j < at ==> s[j] != c,
    ensures
        find_from(s, seq![c], from) == Some(at),
{
    lemma_find_from(s, seq![c], from);
    assert(s.subrange(at, at + 1) =~= seq![c]);
    assert(occurs_at(s, seq![c], at));
    match find_from(s, seq![c], from) {
        Some(i) => {
            assert(s.subrange(i, i + 1)[0] == s[i]);
            assert(seq![c][0] == c);
            if i > at {
                assert(!occurs_at(s, seq![c], at));
            }
        },
        None => {},
    }
}

/// Searching behind a place is searching what stands behind it.
pub proof fn lemma_find_shift(s: Seq<char>, needle: Seq<char>, k: int, from: int)
    requires
        0 <= k <= from,
        k <= s.len(),
    ensures
        find_from(s, needle, from) == match find_from(s.skip(k), needle, from - k) {
            Some(i) => Some(i + k),
            None => None,
        },
    decreases s.len() + 1 - from,
{
    let t = s.skip(k);
    if from + needle.len() <= s.len() {
        assert(t.subrange(from - k, from - k + needle.len()) =~= s.subrange(
            from,
            from + needle.len(),
        ));
        if !occurs_at(s, needle, from) {
            lemma_find_shift(s, needle, k, from + 1);
        }
    }
}

/// Words are told apart by white space and by nothing else: a text with white
/// space in it has the words before it and then the words behind it, and a
/// text without any is one word.
pub proof fn law_white_space_tells_words_apart(a: Seq<char>, gap: Seq<char>, b: Seq<char>)
    ensures
        gap.len() > 0 && is_blank(gap) ==> words(a + gap + b) == words(a) + words(b),
        is_word(a) ==> words(a) == seq![a],
        words(Seq::empty()).len() == 0,
{
    if gap.len() > 0 && is_blank(gap) {
        lemma_words_behind(a, gap, b);
    }
    if is_word(a) {
        assert forall|i: int| 0 <= i < seq![a].len() implies is_word(#[trigger] seq![a][i]) by {}
        lemma_words_join(seq![a]);
        reveal_with_fuel(join, 2);
        assert(join(seq![a], " "@) =~= a);
    }
}

proof fn lemma_words_behind(a: Seq<char>, gap: Seq<char>, b: Seq<char>)
    requires
        gap.len() > 0,
        is_blank(gap),
    ensures
        words(a + gap + b) == words(a) + words(b),
    decreases gap.len() + b.len(),
{
    let all = a + gap + b;
    if b.len() > 0 {
        let rest = b.drop_last();
        lemma_words_behind(a, gap, rest);
        assert(all.drop_last() =~= a + gap + rest);
        assert(all.last() == b.last());
        lemma_words(rest);
        if b.len() == 1 {
            assert(all[all.len() - 2] == gap.last());
        } else {
            assert(all[all.len() - 2] == b[b.len() - 2]);
            assert(rest.last() == b[b.len() - 2]);
        }
        assert(words(all) =~= words(a) + words(b));
    } else {
        assert(all.last() == gap.last());
        if gap.len() > 1 {
            let less = gap.drop_last();
            assert(all.drop_last() =~= a + less + b);
            lemma_words_behind(a, less, b);
        } else {
            assert(all.drop_last() =~= a);
        }
        assert(words(all) =~= words(a) + words(b));
    }
}

/// A prefix of so many bytes is the longest one: it takes no more, and with
/// one more character it would.
pub proof fn law_byte_prefixes_are_the_longest(s: Seq<char>, n: nat)
    ensures
        byte_prefix(s, n).is_prefix_of(s),
        byte_len(byte_prefix(s, n)) <= n,
        byte_prefix(s, n).len() < s.len() ==> byte_len(
            s.take(byte_prefix(s, n).len() as int + 1),
        ) > n,
    decreases s.len(),
{
    let p = byte_prefix(s, n);
    if s.len() == 0 || width(s[0]) > n {
        assert(p =~= Seq::empty());
        if s.len() > 0 {
            lemma_byte_len_push(Seq::empty(), s[0]);
            assert(s.take(1) =~= Seq::<char>::empty().push(s[0]));
        }
    } else {
        let rest = s.drop_first();
        let m = (n - width(s[0])) as nat;
        let q = byte_prefix(rest, m);
        law_byte_prefixes_are_the_longest(rest, m);
        assert(p =~= seq![s[0]] + q);
        assert(p.drop_first() =~= q);
        assert(s.take(p.len() as int) =~= p) by {
            assert(rest.take(q.len() as int) == q);
            assert forall|i: int| 0 <= i < p.len() implies s[i] == p[i] by {
                if i > 0 {
                    assert(rest.take(q.len() as int)[i - 1] == q[i - 1]);
                }
            }
        }
        if p.len() < s.len() {
            let more = s.take(p.len() as int + 1);
            assert(more.drop_first() =~= rest.take(q.len() as int + 1));
            assert(more[0] == s[0]);
        }
    }
}

} // verus!
