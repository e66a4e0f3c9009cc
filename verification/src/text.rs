use vstd::prelude::*;

verus! {

/// Whether a character carries the Unicode `White_Space` property.
pub uninterp spec fn is_whitespace_char(c: char) -> bool;

/// Whether a character is a Unicode letter or number.
pub uninterp spec fn is_alphanumeric_char(c: char) -> bool;

/// The Unicode lower-case form of a string.
pub uninterp spec fn lowercase(s: Seq<char>) -> Seq<char>;

/// `char::is_whitespace` of the standard library: the answer is a function of
/// the character alone and is referred to as `is_whitespace_char`.
pub assume_specification[ char::is_whitespace ](c: char) -> (r: bool)
    ensures
        r == is_whitespace_char(c),
;

/// `char::is_alphanumeric` of the standard library: the answer is a function
/// of the character alone and is referred to as `is_alphanumeric_char`.
pub assume_specification[ char::is_alphanumeric ](c: char) -> (r: bool)
    ensures
        r == is_alphanumeric_char(c),
;

/// `str::to_lowercase` of the standard library: the new string is a function
/// of the characters of the old one and is referred to as `lowercase`.
pub assume_specification[ str::to_lowercase ](s: &str) -> (r: String)
    ensures
        r@ == lowercase(s@),
;

/// `String::push` of the standard library appends one character.
pub assume_specification[ String::push ](s: &mut String, c: char)
    ensures
        final(s)@ == old(s)@.push(c),
;

/// The characters of `s`, in order.
pub fn chars_of(s: &str) -> (r: Vec<char>)
    ensures
        r@ == s@,
{
    let mut out: Vec<char> = Vec::new();
    for c in it: s.chars()
        invariant
            it.seq() == s@,
            out@ == s@.take(it.index() as int),
    {
        out.push(c);
        proof {
            assert(s@.take(it.index() + 1) =~= s@.take(it.index() as int).push(c));
        }
    }
    proof {
        assert(s@.take(s@.len() as int) =~= s@);
    }
    out
}

/// The string made of `chars[from..to]`.
pub fn string_of(chars: &Vec<char>, from: usize, to: usize) -> (r: String)
    requires
        from <= to <= chars.len(),
    ensures
        r@ == chars@.subrange(from as int, to as int),
{
    let mut out = String::new();
    let mut i: usize = from;
    proof {
        assert(chars@.subrange(from as int, from as int) =~= Seq::<char>::empty());
    }
    while i < to
        invariant
            from <= i <= to <= chars.len(),
            out@ == chars@.subrange(from as int, i as int),
        decreases to - i,
    {
        out.push(chars[i]);
        i += 1;
        proof {
            assert(chars@.subrange(from as int, i as int) =~= chars@.subrange(
                from as int,
                i - 1,
            ).push(chars@[i - 1]));
        }
    }
    out
}

/// A class of characters that a scan runs over.
#[derive(Clone, Copy, Debug)]
pub enum CharClass {
    /// Characters with the `White_Space` property.
    Whitespace,
    /// Every other character.
    NonWhitespace,
    /// Characters that are neither letters nor numbers.
    NonAlphanumeric,
}

impl CharClass {
    /// Whether `c` belongs to the class.
    pub open spec fn holds(self, c: char) -> bool {
        match self {
            CharClass::Whitespace => is_whitespace_char(c),
            CharClass::NonWhitespace => !is_whitespace_char(c),
            CharClass::NonAlphanumeric => !is_alphanumeric_char(c),
        }
    }

    /// Whether `c` belongs to the class.
    pub fn test(self, c: char) -> (r: bool)
        ensures
            r == self.holds(c),
    {
        match self {
            CharClass::Whitespace => c.is_whitespace(),
            CharClass::NonWhitespace => !c.is_whitespace(),
            CharClass::NonAlphanumeric => !c.is_alphanumeric(),
        }
    }
}

/// How many characters at the front of `s` belong to `k`.
pub open spec fn leading(s: Seq<char>, k: CharClass) -> nat
    decreases s.len(),
{
    if s.len() > 0 && k.holds(s[0]) {
        1 + leading(s.drop_first(), k)
    } else {
        0
    }
}

/// How many characters at the back of `s` belong to `k`.
pub open spec fn trailing(s: Seq<char>, k: CharClass) -> nat
    decreases s.len(),
{
    if s.len() > 0 && k.holds(s.last()) {
        1 + trailing(s.drop_last(), k)
    } else {
        0
    }
}

/// `s` without the characters of class `k` at its two ends.
pub open spec fn strip(s: Seq<char>, k: CharClass) -> Seq<char> {
    if leading(s, k) == s.len() {
        Seq::empty()
    } else {
        s.subrange(leading(s, k) as int, s.len() - trailing(s, k))
    }
}

/// `s` without the whitespace at its two ends.
pub open spec fn trim(s: Seq<char>) -> Seq<char> {
    strip(s, CharClass::Whitespace)
}

/// The maximal runs of non-whitespace characters of `s`, in order.
pub open spec fn words(s: Seq<char>) -> Seq<Seq<char>>
    decreases s.len(),
    via words_decreases
{
    if s.len() == 0 {
        Seq::empty()
    } else if is_whitespace_char(s[0]) {
        words(s.drop_first())
    } else {
        let n = leading(s, CharClass::NonWhitespace) as int;
        seq![s.take(n)] + words(s.skip(n))
    }
}

#[via_fn]
proof fn words_decreases(s: Seq<char>) {
    if s.len() != 0 && !is_whitespace_char(s[0]) {
        lemma_leading_bounds(s, CharClass::NonWhitespace);
    }
}

/// The leading run lies within `s`, consists of characters of the class, and
/// ends at the end of `s` or before a character outside the class.
pub proof fn lemma_leading_bounds(s: Seq<char>, k: CharClass)
    ensures
        leading(s, k) <= s.len(),
        forall|i: int| 0 <= i < leading(s, k) ==> k.holds(#[trigger] s[i]),
        leading(s, k) < s.len() ==> !k.holds(s[leading(s, k) as int]),
        s.len() > 0 && k.holds(s[0]) ==> leading(s, k) >= 1,
    decreases s.len(),
{
    if s.len() > 0 && k.holds(s[0]) {
        let t = s.drop_first();
        lemma_leading_bounds(t, k);
        assert forall|i: int| 0 <= i < leading(s, k) implies k.holds(#[trigger] s[i]) by {
            if i > 0 {
                assert(s[i] == t[i - 1]);
            }
        }
        if leading(s, k) < s.len() {
            assert(s[leading(s, k) as int] == t[leading(t, k) as int]);
        }
    }
}

/// A run of `n` characters of the class that ends at the end of `s` or
/// before a character outside the class is the leading run.
pub proof fn lemma_leading_is(s: Seq<char>, k: CharClass, n: int)
    requires
        0 <= n <= s.len(),
        forall|i: int| 0 <= i < n ==> k.holds(#[trigger] s[i]),
        n < s.len() ==> !k.holds(s[n]),
    ensures
        leading(s, k) == n,
    decreases n,
{
    if n > 0 {
        let t = s.drop_first();
        assert(k.holds(s[0]));
        assert forall|i: int| 0 <= i < n - 1 implies k.holds(#[trigger] t[i]) by {
            assert(t[i] == s[i + 1]);
        }
        lemma_leading_is(t, k, n - 1);
    }
}

/// The trailing run lies within `s`, consists of characters of the class,
/// and starts at the start of `s` or after a character outside the class.
pub proof fn lemma_trailing_bounds(s: Seq<char>, k: CharClass)
    ensures
        trailing(s, k) <= s.len(),
        forall|i: int| s.len() - trailing(s, k) <= i < s.len() ==> k.holds(#[trigger] s[i]),
        trailing(s, k) < s.len() ==> !k.holds(s[s.len() - trailing(s, k) - 1]),
    decreases s.len(),
{
    if s.len() > 0 && k.holds(s.last()) {
        let t = s.drop_last();
        lemma_trailing_bounds(t, k);
        assert forall|i: int| s.len() - trailing(s, k) <= i < s.len() implies k.holds(
            #[trigger] s[i],
        ) by {
            if i < s.len() - 1 {
                assert(s[i] == t[i]);
            }
        }
        if trailing(s, k) < s.len() {
            assert(s[s.len() - trailing(s, k) - 1] == t[t.len() - trailing(t, k) - 1]);
        }
    }
}

/// A run of `n` characters of the class that starts at the start of `s` or
/// after a character outside the class is the trailing run.
pub proof fn lemma_trailing_is(s: Seq<char>, k: CharClass, n: int)
    requires
        0 <= n <= s.len(),
        forall|i: int| s.len() - n <= i < s.len() ==> k.holds(#[trigger] s[i]),
        n < s.len() ==> !k.holds(s[s.len() - n - 1]),
    ensures
        trailing(s, k) == n,
    decreases n,
{
    if n > 0 {
        let t = s.drop_last();
        assert(k.holds(s[s.len() - 1]));
        assert forall|i: int| t.len() - (n - 1) <= i < t.len() implies k.holds(#[trigger] t[i]) by {
            assert(t[i] == s[i]);
        }
        lemma_trailing_is(t, k, n - 1);
    }
}

/// The end of the run of class `k` that starts at `from`, within
/// `chars[from..to]`.
pub fn skip_class(chars: &Vec<char>, from: usize, to: usize, k: CharClass) -> (r: usize)
    requires
        from <= to <= chars.len(),
    ensures
        from <= r <= to,
        r == from + leading(chars@.subrange(from as int, to as int), k),
{
    let ghost s = chars@.subrange(from as int, to as int);
    let mut i: usize = from;
    while i < to && k.test(chars[i])
        invariant
            from <= i <= to <= chars.len(),
            s == chars@.subrange(from as int, to as int),
            forall|j: int| 0 <= j < i - from ==> k.holds(#[trigger] s[j]),
        decreases to - i,
    {
        assert(s[i - from] == chars@[i as int]);
        i += 1;
    }
    proof {
        if i < to {
            assert(s[i - from] == chars@[i as int]);
        }
        lemma_leading_is(s, k, i - from);
    }
    i
}

/// The start of the run of class `k` that ends at `to`, within
/// `chars[from..to]`.
pub fn skip_class_back(chars: &Vec<char>, from: usize, to: usize, k: CharClass) -> (r: usize)
    requires
        from <= to <= chars.len(),
    ensures
        from <= r <= to,
        r == to - trailing(chars@.subrange(from as int, to as int), k),
{
    let ghost s = chars@.subrange(from as int, to as int);
    let mut i: usize = to;
    while i > from && k.test(chars[i - 1])
        invariant
            from <= i <= to <= chars.len(),
            s == chars@.subrange(from as int, to as int),
            forall|j: int| i - from <= j < to - from ==> k.holds(#[trigger] s[j]),
        decreases i - from,
    {
        assert(s[i - 1 - from] == chars@[i - 1]);
        i -= 1;
    }
    proof {
        if i > from {
            assert(s[i - 1 - from] == chars@[i - 1]);
        }
        lemma_trailing_is(s, k, to - i);
    }
    i
}

/// The bounds of `chars[from..to]` without the characters of class `k` at
/// its two ends.
pub fn strip_range(chars: &Vec<char>, from: usize, to: usize, k: CharClass) -> (r: (usize, usize))
    requires
        from <= to <= chars.len(),
    ensures
        from <= r.0 <= r.1 <= to,
        chars@.subrange(r.0 as int, r.1 as int) == strip(chars@.subrange(from as int, to as int), k),
{
    let ghost s = chars@.subrange(from as int, to as int);
    let a = skip_class(chars, from, to, k);
    if a == to {
        assert(chars@.subrange(a as int, a as int) =~= Seq::<char>::empty());
        return (a, a);
    }
    let b = skip_class_back(chars, from, to, k);
    proof {
        lemma_leading_bounds(s, k);
        lemma_trailing_bounds(s, k);
        let n = leading(s, k) as int;
        let m = trailing(s, k) as int;
        if n + m > s.len() {
            assert(k.holds(s[n]));
        }
        assert(chars@.subrange(a as int, b as int) =~= s.subrange(n, s.len() - m));
    }
    (a, b)
}

/// The bounds of the words of `chars`, in order.
pub fn word_ranges(chars: &Vec<char>) -> (r: Vec<(usize, usize)>)
    ensures
        r.len() == words(chars@).len(),
        forall|j: int|
            0 <= j < r.len() ==> {
                &&& (#[trigger] r[j]).0 < r[j].1 <= chars.len()
                &&& chars@.subrange(r[j].0 as int, r[j].1 as int) == words(chars@)[j]
            },
{
    let n = chars.len();
    let mut out: Vec<(usize, usize)> = Vec::new();
    let ghost mut done: Seq<Seq<char>> = Seq::empty();
    let mut i: usize = 0;
    proof {
        assert(chars@.skip(0) =~= chars@);
    }
    while i < n
        invariant
            i <= n == chars.len(),
            out.len() == done.len(),
            words(chars@) == done + words(chars@.skip(i as int)),
            forall|j: int|
                0 <= j < out.len() ==> {
                    &&& (#[trigger] out[j]).0 < out[j].1 <= chars.len()
                    &&& chars@.subrange(out[j].0 as int, out[j].1 as int) == done[j]
                },
        decreases n - i,
    {
        let ghost rest = chars@.skip(i as int);
        if chars[i].is_whitespace() {
            proof {
                assert(rest.drop_first() =~= chars@.skip(i + 1));
            }
            i += 1;
        } else {
            let j = skip_class(chars, i, n, CharClass::NonWhitespace);
            proof {
                assert(chars@.subrange(i as int, n as int) =~= rest);
                lemma_leading_bounds(rest, CharClass::NonWhitespace);
                let m = leading(rest, CharClass::NonWhitespace) as int;
                assert(rest.take(m) =~= chars@.subrange(i as int, j as int));
                assert(rest.skip(m) =~= chars@.skip(j as int));
                done = done.push(rest.take(m));
                assert(done + words(chars@.skip(j as int)) =~= done.drop_last() + (seq![
                    rest.take(m),
                ] + words(rest.skip(m))));
            }
            out.push((i, j));
            i = j;
        }
    }
    proof {
        assert(done + words(chars@.skip(n as int)) =~= done);
    }
    out
}

/// Whether two strings hold the same characters.
pub fn same_text(a: &str, b: &str) -> (r: bool)
    ensures
        r == (a@ == b@),
{
    let x = a.as_bytes();
    let y = b.as_bytes();
    proof {
        vstd::utf8::encode_utf8_decode_utf8(a@);
        vstd::utf8::encode_utf8_decode_utf8(b@);
    }
    if x.len() != y.len() {
        return false;
    }
    let mut i: usize = 0;
    while i < x.len()
        invariant
            i <= x.len() == y.len(),
            x@ == vstd::utf8::encode_utf8(a@),
            y@ == vstd::utf8::encode_utf8(b@),
            forall|j: int| 0 <= j < i ==> x@[j] == y@[j],
        decreases x.len() - i,
    {
        if x[i] != y[i] {
            return false;
        }
        i += 1;
    }
    proof {
        assert(x@ =~= y@);
    }
    true
}

/// Stripping never lengthens.
pub proof fn lemma_strip_len(s: Seq<char>, k: CharClass)
    ensures
        strip(s, k).len() <= s.len(),
{
    lemma_leading_bounds(s, k);
    lemma_trailing_bounds(s, k);
    let n = leading(s, k) as int;
    let m = trailing(s, k) as int;
    if n < s.len() && n + m > s.len() {
        assert(k.holds(s[n]));
    }
}

/// A text has no more words than characters.
pub proof fn lemma_words_len(s: Seq<char>)
    ensures
        words(s).len() <= s.len(),
    decreases s.len(),
{
    if s.len() == 0 {
    } else if is_whitespace_char(s[0]) {
        lemma_words_len(s.drop_first());
    } else {
        lemma_leading_bounds(s, CharClass::NonWhitespace);
        lemma_words_len(s.skip(leading(s, CharClass::NonWhitespace) as int));
    }
}

/// The number of words of `text`.
pub fn count_words(text: &str) -> (r: usize)
    ensures
        r == words(text@).len(),
{
    let chars = chars_of(text);
    word_ranges(&chars).len()
}

/// The number of characters of `text`.
pub fn count_chars(text: &str) -> (r: usize)
    ensures
        r == text@.len(),
{
    chars_of(text).len()
}

} // verus!
