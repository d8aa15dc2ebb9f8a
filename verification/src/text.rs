//! Character-level text primitives shared by the parsers and the classifier.

use vstd::prelude::*;
use vstd::std_specs::iter::IteratorSpec;

verus! {

/// `String::push` appends one character to the end of the string.
pub assume_specification[ String::push ](s: &mut String, c: char)
    ensures
        final(s)@ == old(s)@.push(c),
;

/// The characters of `s`, in order.
pub fn chars_of(s: &str) -> (r: Vec<char>)
    ensures
        r@ == s@,
{
    let mut out: Vec<char> = Vec::new();
    let mut it = s.chars();
    loop
        invariant
            it.obeys_prophetic_iter_laws(),
            it.decrease() is Some,
            out@ + it.remaining() == s@,
        decreases it.decrease()->0,
    {
        match it.next() {
            Some(c) => {
                out.push(c);
            },
            None => {
                return out;
            },
        }
    }
}

/// The string made of `chars`, in order.
pub fn string_of(chars: &Vec<char>) -> (r: String)
    ensures
        r@ == chars@,
{
    let mut out = String::new();
    let mut i: usize = 0;
    while i < chars.len()
        invariant
            i <= chars.len(),
            out@ == chars@.take(i as int),
        decreases chars.len() - i,
    {
        out.push(chars[i]);
        i += 1;
    }
    out
}


/// The texts of a sequence of strings.
pub open spec fn texts(v: Seq<String>) -> Seq<Seq<char>> {
    Seq::new(v.len(), |i: int| v[i]@)
}

/// A copy of a list of strings.
pub fn copy_strings(v: &Vec<String>) -> (r: Vec<String>)
    ensures
        texts(r@) == texts(v@),
{
    let mut out: Vec<String> = Vec::new();
    let mut i: usize = 0;
    while i < v.len()
        invariant
            i <= v@.len(),
            out@.len() == i,
            forall|k: int| 0 <= k < i ==> out@[k]@ == v@[k]@,
        decreases v@.len() - i,
    {
        out.push(v[i].clone());
        i += 1;
    }
    assert(texts(out@) =~= texts(v@));
    out
}

/// Whether `needle` is one of `words`.
pub fn lists_word(words: &Vec<String>, needle: &String) -> (r: bool)
    ensures
        r == texts(words@).contains(needle@),
{
    let mut i: usize = 0;
    while i < words.len()
        invariant
            i <= words@.len(),
            forall|k: int| 0 <= k < i ==> texts(words@)[k] != needle@,
        decreases words@.len() - i,
    {
        if words[i] == *needle {
            assert(texts(words@)[i as int] == needle@);
            return true;
        }
        i += 1;
    }
    false
}

/// The upper-case form of a text, as `str::to_uppercase` computes it.
pub uninterp spec fn uppercase(text: Seq<char>) -> Seq<char>;

/// `str::to_uppercase`: the upper-case equivalent of the string, which
/// depends on the string alone.
#[verifier::external_body]
pub(crate) fn to_uppercase(s: &str) -> (r: String)
    ensures
        r@ == uppercase(s@),
{
    s.to_uppercase()
}


/// Whether a character is white space: whether it has the Unicode
/// property White_Space. These are the tab, the line feed, the vertical
/// tab, the form feed, the carriage return and the space; the next line
/// and the no-break space; the ogham space mark; the spaces from the en
/// quad to the hair space; the line and the paragraph separator; the narrow
/// no-break space, the medium mathematical space and the ideographic space.
pub open spec fn whitespace(c: char) -> bool {
    let n = c as u32;
    ||| 0x09 <= n <= 0x0d
    ||| n == 0x20
    ||| n == 0x85
    ||| n == 0xa0
    ||| n == 0x1680
    ||| 0x2000 <= n <= 0x200a
    ||| n == 0x2028
    ||| n == 0x2029
    ||| n == 0x202f
    ||| n == 0x205f
    ||| n == 0x3000
}

/// Whether a character is white space.
pub fn is_whitespace(c: char) -> (r: bool)
    ensures
        r == whitespace(c),
{
    let n = c as u32;
    (0x09 <= n && n <= 0x0d) || n == 0x20 || n == 0x85 || n == 0xa0 || n == 0x1680 || (0x2000 <= n && n <= 0x200a)
        || n == 0x2028 || n == 0x2029 || n == 0x202f || n == 0x205f || n == 0x3000
}

/// `text` without any occurrence of the character `c`.
pub open spec fn without(text: Seq<char>, c: char) -> Seq<char>
    decreases text.len(),
{
    if text.len() == 0 {
        text
    } else if text.last() == c {
        without(text.drop_last(), c)
    } else {
        without(text.drop_last(), c).push(text.last())
    }
}

/// `text` without leading white space.
pub open spec fn trim_start(text: Seq<char>) -> Seq<char>
    decreases text.len(),
{
    if text.len() > 0 && whitespace(text[0]) {
        trim_start(text.drop_first())
    } else {
        text
    }
}

/// `text` without trailing white space.
pub open spec fn trim_end(text: Seq<char>) -> Seq<char>
    decreases text.len(),
{
    if text.len() > 0 && whitespace(text.last()) {
        trim_end(text.drop_last())
    } else {
        text
    }
}

/// `text` without leading and trailing white space.
pub open spec fn trim(text: Seq<char>) -> Seq<char> {
    trim_end(trim_start(text))
}

/// `sep` stands in `text` at position `at`.
pub open spec fn stands_at(text: Seq<char>, sep: Seq<char>, at: int) -> bool {
    0 <= at && at + sep.len() <= text.len() && text.subrange(at, at + sep.len()) == sep
}

/// The first position at or after `from` where `sep` stands in `text`.
pub open spec fn find(text: Seq<char>, sep: Seq<char>, from: int) -> Option<int>
    decreases text.len() - from,
{
    if from < 0 || from >= text.len() || from + sep.len() > text.len() {
        None
    } else if stands_at(text, sep, from) {
        Some(from)
    } else {
        find(text, sep, from + 1)
    }
}

/// The parts of `text` between the occurrences of the non-empty separator
/// `sep`, found from the left and not overlapping. Empty parts are kept.
pub open spec fn split(text: Seq<char>, sep: Seq<char>) -> Seq<Seq<char>>
    decreases text.len(),
{
    if sep.len() == 0 {
        seq![text]
    } else {
        match find(text, sep, 0) {
            None => seq![text],
            Some(at) => if 0 <= at && at + sep.len() <= text.len() {
                seq![text.subrange(0, at)] + split(text.subrange(at + sep.len(), text.len() as int), sep)
            } else {
                seq![text]
            },
        }
    }
}

/// The parts joined into one text with `sep` between them.
pub open spec fn join(parts: Seq<Seq<char>>, sep: Seq<char>) -> Seq<char>
    decreases parts.len(),
{
    if parts.len() == 0 {
        Seq::empty()
    } else if parts.len() == 1 {
        parts[0]
    } else {
        join(parts.drop_last(), sep) + sep + parts.last()
    }
}

/// The words of `text` from position `i` on, where `current` holds the
/// characters of the word that position `i` continues.
pub open spec fn words_from(text: Seq<char>, i: int, current: Seq<char>) -> Seq<Seq<char>>
    decreases text.len() - i,
{
    let done = if current.len() > 0 {
        seq![current]
    } else {
        Seq::empty()
    };
    if i < 0 || i >= text.len() {
        done
    } else if whitespace(text[i]) {
        done + words_from(text, i + 1, Seq::empty())
    } else {
        words_from(text, i + 1, current.push(text[i]))
    }
}

/// The words of `text`: its maximal runs of characters that are not white
/// space.
pub open spec fn split_whitespace(text: Seq<char>) -> Seq<Seq<char>> {
    words_from(text, 0, Seq::empty())
}

/// The models of a sequence of character vectors.
pub open spec fn rows(v: Seq<Vec<char>>) -> Seq<Seq<char>> {
    Seq::new(v.len(), |i: int| v[i]@)
}

/// `text` without any occurrence of the character `c`.
pub fn remove_char(text: &Vec<char>, c: char) -> (r: Vec<char>)
    ensures
        r@ == without(text@, c),
{
    let mut out: Vec<char> = Vec::new();
    let mut i: usize = 0;
    while i < text.len()
        invariant
            i <= text@.len(),
            out@ == without(text@.take(i as int), c),
        decreases text@.len() - i,
    {
        assert(text@.take(i + 1).drop_last() =~= text@.take(i as int));
        if text[i] != c {
            out.push(text[i]);
        }
        i += 1;
    }
    assert(text@.take(text@.len() as int) =~= text@);
    out
}

/// The characters of `text` from `from` up to `to`.
pub fn slice(text: &Vec<char>, from: usize, to: usize) -> (r: Vec<char>)
    requires
        from <= to <= text@.len(),
    ensures
        r@ == text@.subrange(from as int, to as int),
{
    let mut out: Vec<char> = Vec::new();
    let mut i: usize = from;
    while i < to
        invariant
            from <= i <= to,
            to <= text@.len(),
            out@ == text@.subrange(from as int, i as int),
        decreases to - i,
    {
        out.push(text[i]);
        assert(out@ =~= text@.subrange(from as int, i + 1));
        i += 1;
    }
    assert(out@ =~= text@.subrange(from as int, to as int));
    out
}

/// `text` without leading and trailing white space.
pub fn trimmed(text: &Vec<char>) -> (r: Vec<char>)
    ensures
        r@ == trim(text@),
{
    let n = text.len();
    let mut from: usize = 0;
    assert(text@.skip(0) =~= text@);
    while from < n && is_whitespace(text[from])
        invariant
            n == text@.len(),
            from <= n,
            trim_start(text@) == trim_start(text@.skip(from as int)),
        decreases n - from,
    {
        assert(text@.skip(from as int).drop_first() =~= text@.skip(from + 1));
        from += 1;
    }
    let ghost rest = text@.skip(from as int);
    assert(trim_start(text@) == rest);
    let mut to: usize = n;
    while to > from && is_whitespace(text[to - 1])
        invariant
            n == text@.len(),
            from <= to <= n,
            rest == text@.skip(from as int),
            trim_end(rest) == trim_end(text@.subrange(from as int, to as int)),
        decreases to,
    {
        assert(text@.subrange(from as int, to as int).drop_last() =~= text@.subrange(from as int, to - 1));
        to -= 1;
    }
    assert(text@.subrange(from as int, n as int) =~= rest);
    slice(text, from, to)
}

/// Whether `sep` stands in `text` at position `at`.
pub fn matches_at(text: &Vec<char>, sep: &Vec<char>, at: usize) -> (r: bool)
    requires
        at + sep@.len() <= text@.len(),
    ensures
        r == stands_at(text@, sep@, at as int),
{
    let n = text.len();
    let mut k: usize = 0;
    while k < sep.len()
        invariant
            n == text@.len(),
            k <= sep@.len(),
            at + sep@.len() <= text@.len(),
            forall|j: int| 0 <= j < k ==> text@[at + j] == sep@[j],
        decreases sep@.len() - k,
    {
        if text[at + k] != sep[k] {
            assert(text@.subrange(at as int, at + sep@.len())[k as int] != sep@[k as int]);
            return false;
        }
        k += 1;
    }
    assert(text@.subrange(at as int, at + sep@.len()) =~= sep@);
    true
}

/// The first position at or after `from` where `sep` stands in `text`.
pub fn position(text: &Vec<char>, sep: &Vec<char>, from: usize) -> (r: Option<usize>)
    ensures
        match r {
            Some(at) => find(text@, sep@, from as int) == Some(at as int) && from <= at && at + sep@.len()
                <= text@.len(),
            None => find(text@, sep@, from as int) is None,
        },
{
    let n = text.len();
    let m = sep.len();
    if m > n {
        return None;
    }
    let mut at: usize = from;
    while at < n && n - at >= m
        invariant
            n == text@.len(),
            m == sep@.len(),
            m <= n,
            from <= at,
            find(text@, sep@, from as int) == find(text@, sep@, at as int),
        decreases n - at,
    {
        if matches_at(text, sep, at) {
            return Some(at);
        }
        at += 1;
    }
    None
}

/// Looking for `sep` in what stands in `text` from `start` on is looking
/// for it in `text` from `start` on.
pub proof fn lemma_find_in_rest(text: Seq<char>, sep: Seq<char>, start: int, k: int)
    requires
        0 <= start <= text.len(),
        0 <= k,
    ensures
        find(text.subrange(start, text.len() as int), sep, k) == match find(text, sep, start + k) {
            Some(at) => Some(at - start),
            None => None,
        },
    decreases text.len() - start - k,
{
    let rest = text.subrange(start, text.len() as int);
    if k < rest.len() && k + sep.len() <= rest.len() {
        assert(rest.subrange(k, k + sep.len()) =~= text.subrange(start + k, start + k + sep.len()));
        if !stands_at(rest, sep, k) {
            lemma_find_in_rest(text, sep, start, k + 1);
        }
    }
}

/// The parts of `text` between the occurrences of the non-empty separator
/// `sep`.
pub fn split_on(text: &Vec<char>, sep: &Vec<char>) -> (r: Vec<Vec<char>>)
    requires
        sep@.len() > 0,
    ensures
        rows(r@) == split(text@, sep@),
{
    let n = text.len();
    let mut parts: Vec<Vec<char>> = Vec::new();
    let mut start: usize = 0;
    proof {
        assert(text@.subrange(0, n as int) =~= text@);
        assert(rows(parts@) + split(text@, sep@) =~= split(text@, sep@));
    }
    loop
        invariant
            n == text@.len(),
            sep@.len() > 0,
            start <= n,
            split(text@, sep@) == rows(parts@) + split(text@.subrange(start as int, n as int), sep@),
        decreases n - start,
    {
        let ghost rest = text@.subrange(start as int, n as int);
        let ghost done = rows(parts@);
        proof {
            lemma_find_in_rest(text@, sep@, start as int, 0);
        }
        match position(text, sep, start) {
            None => {
                parts.push(slice(text, start, n));
                assert(rows(parts@) =~= done + seq![rest]);
                return parts;
            },
            Some(at) => {
                parts.push(slice(text, start, at));
                proof {
                    let cut = at - start;
                    assert(rest.subrange(0, cut) =~= text@.subrange(start as int, at as int));
                    assert(rest.subrange(cut + sep@.len(), rest.len() as int) =~= text@.subrange(
                        at + sep@.len(),
                        n as int,
                    ));
                    assert(rows(parts@) =~= done + seq![rest.subrange(0, cut)]);
                    assert(done + (seq![rest.subrange(0, cut)] + split(
                        rest.subrange(cut + sep@.len(), rest.len() as int),
                        sep@,
                    )) =~= done + seq![rest.subrange(0, cut)] + split(
                        rest.subrange(cut + sep@.len(), rest.len() as int),
                        sep@,
                    ));
                }
                start = at + sep.len();
            },
        }
    }
}

/// The parts joined into one text with `sep` between them.
pub fn join_with(parts: &Vec<Vec<char>>, sep: &Vec<char>) -> (r: Vec<char>)
    ensures
        r@ == join(rows(parts@), sep@),
{
    let mut out: Vec<char> = Vec::new();
    let mut i: usize = 0;
    while i < parts.len()
        invariant
            i <= parts@.len(),
            out@ == join(rows(parts@).take(i as int), sep@),
        decreases parts@.len() - i,
    {
        let ghost before = out@;
        let ghost all = rows(parts@);
        assert(all.take(i + 1).drop_last() =~= all.take(i as int));
        assert(all.take(i + 1).last() == parts@[i as int]@);
        if i > 0 {
            let mut k: usize = 0;
            while k < sep.len()
                invariant
                    k <= sep@.len(),
                    out@ == before + sep@.take(k as int),
                decreases sep@.len() - k,
            {
                out.push(sep[k]);
                assert(out@ =~= before + sep@.take(k + 1));
                k += 1;
            }
            assert(sep@.take(sep@.len() as int) =~= sep@);
        } else {
            assert(out@ =~= before + Seq::<char>::empty());
        }
        let ghost mid = out@;
        let part = &parts[i];
        let mut k: usize = 0;
        while k < part.len()
            invariant
                k <= part@.len(),
                out@ == mid + part@.take(k as int),
            decreases part@.len() - k,
        {
            out.push(part[k]);
            assert(out@ =~= mid + part@.take(k + 1));
            k += 1;
        }
        assert(part@.take(part@.len() as int) =~= part@);
        proof {
            if i == 0 {
                assert(before =~= Seq::<char>::empty());
                assert(out@ =~= part@);
            }
        }
        i += 1;
    }
    assert(rows(parts@).take(parts@.len() as int) =~= rows(parts@));
    out
}

/// The words of `text`: its maximal runs of characters that are not white
/// space.
pub fn words(text: &Vec<char>) -> (r: Vec<Vec<char>>)
    ensures
        rows(r@) == split_whitespace(text@),
{
    let mut out: Vec<Vec<char>> = Vec::new();
    let mut current: Vec<char> = Vec::new();
    let mut i: usize = 0;
    while i < text.len()
        invariant
            i <= text@.len(),
            split_whitespace(text@) == rows(out@) + words_from(text@, i as int, current@),
        decreases text@.len() - i,
    {
        let ghost done = rows(out@);
        if is_whitespace(text[i]) {
            if current.len() > 0 {
                let ghost word = current@;
                out.push(current);
                current = Vec::new();
                assert(rows(out@) =~= done + seq![word]);
                assert(done + (seq![word] + words_from(text@, i + 1, Seq::empty())) =~= done + seq![word]
                    + words_from(text@, i + 1, Seq::empty()));
            } else {
                assert(Seq::<Seq<char>>::empty() + words_from(text@, i + 1, Seq::empty()) =~= words_from(
                    text@,
                    i + 1,
                    Seq::empty(),
                ));
                assert(current@ =~= Seq::<char>::empty());
            }
        } else {
            current.push(text[i]);
        }
        i += 1;
    }
    let ghost done = rows(out@);
    if current.len() > 0 {
        let ghost word = current@;
        out.push(current);
        assert(rows(out@) =~= done + seq![word]);
    } else {
        assert(done + Seq::<Seq<char>>::empty() =~= done);
    }
    out
}


/// A copy of `text`.
pub fn copy_chars(text: &Vec<char>) -> (r: Vec<char>)
    ensures
        r@ == text@,
{
    let n = text.len();
    let out = slice(text, 0, n);
    assert(text@.subrange(0, n as int) =~= text@);
    out
}

} // verus!
