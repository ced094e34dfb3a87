//! Text as sequences of characters: comparison, trimming, splitting, joining and
//! the decimal and hexadecimal spelling of numbers.
use vstd::prelude::*;
use vstd::utf8::{decode_utf8, encode_utf8, valid_utf8};

verus! {

/// `String::push` appends one character.
pub assume_specification[ String::push ](s: &mut String, c: char)
    ensures
        final(s)@ == old(s)@.push(c),
;

/// `String::push_str` appends the characters of another string.
pub assume_specification[ String::push_str ](s: &mut String, other: &str)
    ensures
        final(s)@ == old(s)@ + other@,
;

/// `==` on `str` holds exactly when the two strings have the same characters.
pub assume_specification[ <str as PartialEq>::eq ](s: &str, other: &str) -> (r: bool)
    ensures
        r == (s@ == other@),
;

/// What the error of `String::from_utf8` says of bytes that are not UTF-8.
pub uninterp spec fn utf8_failure(bytes: Seq<u8>) -> Seq<char>;

/// `String::from_utf8`: the text that the bytes spell, or what its error says where they are
/// not UTF-8.
#[verifier::external_body]
pub(crate) fn decode(bytes: Vec<u8>) -> (r: Result<String, String>)
    ensures
        match r {
            Ok(text) => valid_utf8(bytes@) && text@ == decode_utf8(bytes@),
            Err(message) => !valid_utf8(bytes@) && message@ == utf8_failure(bytes@),
        },
{
    match String::from_utf8(bytes) {
        Ok(text) => Ok(text),
        Err(error) => Err(error.to_string()),
    }
}

/// What `String::from_utf8_lossy` makes of bytes that are not UTF-8.
pub uninterp spec fn lossy_text(bytes: Seq<u8>) -> Seq<char>;

/// `String::from_utf8_lossy`: the text that the bytes spell; where they are not UTF-8, nothing
/// is said of the text but that it depends on the bytes alone.
#[verifier::external_body]
pub(crate) fn lossy(bytes: &Vec<u8>) -> (r: String)
    ensures
        valid_utf8(bytes@) ==> r@ == decode_utf8(bytes@),
        !valid_utf8(bytes@) ==> r@ == lossy_text(bytes@),
{
    String::from_utf8_lossy(bytes).into_owned()
}

/// What a program has written, as text.
pub open spec fn written_text(bytes: Seq<u8>) -> Seq<char> {
    if valid_utf8(bytes) {
        decode_utf8(bytes)
    } else {
        lossy_text(bytes)
    }
}

/// The characters of each string of a list.
pub open spec fn texts(v: Seq<String>) -> Seq<Seq<char>> {
    v.map_values(|s: String| s@)
}

/// The characters of an optional string.
pub open spec fn opt_text(v: Option<String>) -> Option<Seq<char>> {
    match v {
        Some(s) => Some(s@),
        None => None,
    }
}

/// Whether two strings have the same characters.
pub fn same(a: &str, b: &str) -> (r: bool)
    ensures
        r == (a@ == b@),
{
    *a == *b
}

/// The characters of a string.
pub fn chars_of(s: &str) -> (r: Vec<char>)
    ensures
        r@ == s@,
{
    let mut out: Vec<char> = Vec::new();
    for c in it: s.chars()
        invariant
            out@ == it.seq().take(it.index() as int),
            it.seq() == s@,
    {
        out.push(c);
    }
    out
}

/// The string made of the characters from `from` up to `to`.
pub fn string_of(v: &Vec<char>, from: usize, to: usize) -> (r: String)
    requires
        from <= to <= v@.len(),
    ensures
        r@ == v@.subrange(from as int, to as int),
{
    let mut out: String = String::new();
    let mut i: usize = from;
    while i < to
        invariant
            from <= i <= to <= v@.len(),
            out@ == v@.subrange(from as int, i as int),
        decreases to - i,
    {
        out.push(v[i]);
        i = i + 1;
        assert(v@.subrange(from as int, i as int) =~= v@.subrange(from as int, i - 1).push(
            v@[i - 1],
        ));
    }
    out
}

/// An owned copy of an optional string.
pub fn copy_opt(v: &Option<String>) -> (r: Option<String>)
    ensures
        r == *v,
{
    match v {
        Some(s) => Some(s.clone()),
        None => None,
    }
}

/// Whether two optional strings have the same characters.
pub fn same_opt(a: &Option<String>, b: &Option<String>) -> (r: bool)
    ensures
        r == (opt_text(*a) == opt_text(*b)),
{
    match (a, b) {
        (Some(x), Some(y)) => same(x.as_str(), y.as_str()),
        (None, None) => true,
        _ => false,
    }
}

/// Whether `list` holds a string with the characters of `s`.
pub fn holds(list: &Vec<String>, s: &str) -> (r: bool)
    ensures
        r == texts(list@).contains(s@),
{
    let mut i: usize = 0;
    while i < list.len()
        invariant
            0 <= i <= list.len(),
            forall|j: int| 0 <= j < i ==> texts(list@)[j] != s@,
        decreases list.len() - i,
    {
        if same(list[i].as_str(), s) {
            assert(texts(list@)[i as int] == s@);
            return true;
        }
        i = i + 1;
    }
    false
}

/// An ASCII decimal digit.
pub open spec fn is_digit(c: char) -> bool {
    '0' <= c && c <= '9'
}

/// Tests for an ASCII decimal digit.
pub fn digit(c: char) -> (r: bool)
    ensures
        r == is_digit(c),
{
    '0' <= c && c <= '9'
}

/// One or more ASCII decimal digits.
pub open spec fn is_number(s: Seq<char>) -> bool {
    s.len() > 0 && forall|i: int| 0 <= i < s.len() ==> is_digit(#[trigger] s[i])
}

/// The number that a row of digits spells.
pub open spec fn number_value(s: Seq<char>) -> nat
    decreases s.len(),
{
    if s.len() == 0 {
        0
    } else {
        number_value(s.drop_last()) * 10 + ((s.last() as int - '0' as int) as nat)
    }
}

/// A character with the White_Space property, as `char::is_whitespace` tests it.
pub open spec fn is_white_space(c: char) -> bool {
    ||| '\u{9}' <= c && c <= '\u{d}'
    ||| c == ' '
    ||| c == '\u{85}'
    ||| c == '\u{a0}'
    ||| c == '\u{1680}'
    ||| '\u{2000}' <= c && c <= '\u{200a}'
    ||| c == '\u{2028}'
    ||| c == '\u{2029}'
    ||| c == '\u{202f}'
    ||| c == '\u{205f}'
    ||| c == '\u{3000}'
}

/// Tests for white space.
pub fn white_space(c: char) -> (r: bool)
    ensures
        r == is_white_space(c),
{
    ('\u{9}' <= c && c <= '\u{d}') || c == ' ' || c == '\u{85}' || c == '\u{a0}' || c
        == '\u{1680}' || ('\u{2000}' <= c && c <= '\u{200a}') || c == '\u{2028}' || c
        == '\u{2029}' || c == '\u{202f}' || c == '\u{205f}' || c == '\u{3000}'
}

/// A control character, as `char::is_control` tests it.
pub open spec fn is_control(c: char) -> bool {
    c <= '\u{1f}' || ('\u{7f}' <= c && c <= '\u{9f}')
}

/// Tests for a control character.
pub fn control(c: char) -> (r: bool)
    ensures
        r == is_control(c),
{
    c <= '\u{1f}' || ('\u{7f}' <= c && c <= '\u{9f}')
}

/// The ASCII lower case of a character.
pub open spec fn lower(c: char) -> char {
    if 'A' <= c && c <= 'Z' {
        ((c as int + 32) as u8) as char
    } else {
        c
    }
}

/// A text in ASCII lower case.
pub open spec fn lowered(s: Seq<char>) -> Seq<char> {
    s.map_values(|c: char| lower(c))
}

/// Computes the ASCII lower case of a character.
pub fn to_lower(c: char) -> (r: char)
    ensures
        r == lower(c),
{
    if 'A' <= c && c <= 'Z' {
        ((c as u8) + 32) as char
    } else {
        c
    }
}

/// Computes a text in ASCII lower case, as characters.
pub fn lower_chars(s: &str) -> (r: Vec<char>)
    ensures
        r@ == lowered(s@),
{
    let v = chars_of(s);
    let mut out: Vec<char> = Vec::new();
    let mut i: usize = 0;
    while i < v.len()
        invariant
            i <= v.len(),
            v@ == s@,
            out@ == lowered(s@).take(i as int),
        decreases v.len() - i,
    {
        out.push(to_lower(v[i]));
        i = i + 1;
        assert(lowered(s@).take(i as int) =~= lowered(s@).take(i - 1).push(lower(s@[i - 1])));
    }
    assert(lowered(s@).take(i as int) =~= lowered(s@));
    out
}

/// Whether the text starts with the prefix.
pub open spec fn has_prefix(s: Seq<char>, prefix: Seq<char>) -> bool {
    prefix.len() <= s.len() && s.take(prefix.len() as int) == prefix
}

/// Whether the text ends with the suffix.
pub open spec fn has_suffix(s: Seq<char>, suffix: Seq<char>) -> bool {
    suffix.len() <= s.len() && s.skip(s.len() - suffix.len()) == suffix
}

/// Tests for a prefix.
pub fn starts_with(s: &str, prefix: &str) -> (r: bool)
    ensures
        r == has_prefix(s@, prefix@),
{
    let a = chars_of(s);
    let b = chars_of(prefix);
    if b.len() > a.len() {
        return false;
    }
    let mut i: usize = 0;
    while i < b.len()
        invariant
            i <= b.len() <= a.len(),
            a@ == s@,
            b@ == prefix@,
            forall|j: int| 0 <= j < i ==> a@[j] == b@[j],
        decreases b.len() - i,
    {
        if a[i] != b[i] {
            assert(s@.take(prefix@.len() as int)[i as int] != prefix@[i as int]);
            return false;
        }
        i = i + 1;
    }
    assert(s@.take(prefix@.len() as int) =~= prefix@);
    true
}

/// Tests for a suffix.
pub fn ends_with(s: &str, suffix: &str) -> (r: bool)
    ensures
        r == has_suffix(s@, suffix@),
{
    let a = chars_of(s);
    let b = chars_of(suffix);
    if b.len() > a.len() {
        return false;
    }
    let d: usize = a.len() - b.len();
    let mut i: usize = 0;
    while i < b.len()
        invariant
            i <= b.len() <= a.len(),
            d == a.len() - b.len(),
            a@ == s@,
            b@ == suffix@,
            forall|j: int| 0 <= j < i ==> a@[d + j] == b@[j],
        decreases b.len() - i,
    {
        if a[d + i] != b[i] {
            assert(s@.skip(s@.len() - suffix@.len())[i as int] != suffix@[i as int]);
            return false;
        }
        i = i + 1;
    }
    assert(s@.skip(s@.len() - suffix@.len()) =~= suffix@);
    true
}

/// The text after its first `n` characters.
pub fn skip_chars(s: &str, n: usize) -> (r: String)
    requires
        n <= s@.len(),
    ensures
        r@ == s@.skip(n as int),
{
    let v = chars_of(s);
    let r = string_of(&v, n, v.len());
    assert(r@ =~= s@.skip(n as int));
    r
}

/// The pieces of a text between the characters of `seps`.
pub open spec fn split_by(s: Seq<char>, seps: Set<char>) -> Seq<Seq<char>>
    decreases s.len(),
{
    if s.len() == 0 {
        seq![Seq::<char>::empty()]
    } else {
        let rest = split_by(s.drop_last(), seps);
        if seps.contains(s.last()) {
            rest.push(Seq::<char>::empty())
        } else {
            rest.drop_last().push(rest.last().push(s.last()))
        }
    }
}

/// A character that is no separator is in one of the pieces.
pub proof fn lemma_split_keeps(s: Seq<char>, seps: Set<char>, c: char)
    requires
        s.contains(c),
        !seps.contains(c),
    ensures
        exists|i: int| 0 <= i < split_by(s, seps).len() && (#[trigger] split_by(s, seps)[i]).contains(c),
    decreases s.len(),
{
    let t = s.drop_last();
    let rest = split_by(t, seps);
    let all = split_by(s, seps);
    lemma_split_some(t, seps);
    if t.contains(c) {
        lemma_split_keeps(t, seps, c);
        let i = choose|i: int| 0 <= i < rest.len() && (#[trigger] rest[i]).contains(c);
        if seps.contains(s.last()) || i < rest.len() - 1 {
            assert(all[i] == rest[i]);
        } else {
            let k = choose|k: int| 0 <= k < rest[i].len() && rest[i][k] == c;
            assert(all[i][k] == c);
        }
    } else {
        let k = choose|k: int| 0 <= k < s.len() && s[k] == c;
        if k < t.len() {
            assert(t[k] == c);
        }
        assert(s.last() == c);
        let last = all[all.len() - 1];
        assert(last[last.len() - 1] == c);
    }
}

proof fn lemma_split_some(s: Seq<char>, seps: Set<char>)
    ensures
        split_by(s, seps).len() > 0,
    decreases s.len(),
{
    if s.len() > 0 {
        lemma_split_some(s.drop_last(), seps);
    }
}

/// The pieces of a text between the occurrences of one character.
pub open spec fn split_on(s: Seq<char>, sep: char) -> Seq<Seq<char>> {
    split_by(s, set![sep])
}

/// Splits a text at one character.
pub fn split(s: &str, sep: char) -> (r: Vec<String>)
    ensures
        texts(r@) == split_on(s@, sep),
        r@.len() > 0,
{
    let v = chars_of(s);
    let ghost f = set![sep];
    let mut out: Vec<String> = Vec::new();
    let mut cur: String = String::new();
    let mut i: usize = 0;
    assert(v@.take(0) =~= Seq::<char>::empty());
    assert(texts(out@).push(cur@) =~= seq![Seq::<char>::empty()]);
    while i < v.len()
        invariant
            i <= v.len(),
            v@ == s@,
            f == set![sep],
            texts(out@).push(cur@) == split_by(v@.take(i as int), f),
        decreases v.len() - i,
    {
        let c: char = v[i];
        let ghost before = texts(out@).push(cur@);
        assert(v@.take(i + 1).drop_last() =~= v@.take(i as int));
        assert(v@.take(i + 1).last() == c);
        if c == sep {
            out.push(cur);
            assert(texts(out@) =~= before);
            cur = String::new();
            assert(texts(out@).push(cur@) =~= before.push(Seq::<char>::empty()));
        } else {
            cur.push(c);
            assert(before.drop_last() =~= texts(out@));
            assert(texts(out@).push(cur@) =~= before.drop_last().push(before.last().push(c)));
        }
        i = i + 1;
    }
    assert(v@.take(i as int) =~= s@);
    let ghost o = out@;
    let ghost last = cur@;
    out.push(cur);
    assert(texts(out@) =~= texts(o).push(last));
    out
}

/// A text without the white space at its start.
pub open spec fn trim_start(s: Seq<char>) -> Seq<char>
    decreases s.len(),
{
    if s.len() > 0 && is_white_space(s[0]) {
        trim_start(s.drop_first())
    } else {
        s
    }
}

/// A text without the white space at its end.
pub open spec fn trim_end(s: Seq<char>) -> Seq<char>
    decreases s.len(),
{
    if s.len() > 0 && is_white_space(s.last()) {
        trim_end(s.drop_last())
    } else {
        s
    }
}

/// A text without the white space around it.
pub open spec fn trimmed(s: Seq<char>) -> Seq<char> {
    trim_end(trim_start(s))
}

/// Removes the white space around a text.
pub fn trim(s: &str) -> (r: String)
    ensures
        r@ == trimmed(s@),
{
    let v = chars_of(s);
    let mut i: usize = 0;
    assert(v@.skip(0) =~= v@);
    while i < v.len() && white_space(v[i])
        invariant
            i <= v.len(),
            trim_start(v@) == trim_start(v@.skip(i as int)),
        decreases v.len() - i,
    {
        assert(v@.skip(i as int).drop_first() =~= v@.skip(i + 1));
        i = i + 1;
    }
    let mut j: usize = v.len();
    assert(v@.subrange(i as int, j as int) =~= v@.skip(i as int));
    while i < j && white_space(v[j - 1])
        invariant
            i <= j <= v.len(),
            trim_end(v@.skip(i as int)) == trim_end(v@.subrange(i as int, j as int)),
        decreases j,
    {
        assert(v@.subrange(i as int, j as int).drop_last() =~= v@.subrange(i as int, j - 1));
        j = j - 1;
    }
    string_of(&v, i, j)
}

/// A text without the repetitions of `suffix` at its end.
pub open spec fn without_suffixes(s: Seq<char>, suffix: Seq<char>) -> Seq<char>
    decreases s.len(),
{
    if suffix.len() > 0 && has_suffix(s, suffix) {
        without_suffixes(s.take(s.len() - suffix.len()), suffix)
    } else {
        s
    }
}

/// Removes the repetitions of a suffix.
pub fn trim_end_matches(s: &str, suffix: &str) -> (r: String)
    ensures
        r@ == without_suffixes(s@, suffix@),
{
    let mut cur: String = s.to_owned();
    let n = suffix.unicode_len();
    while n > 0 && ends_with(cur.as_str(), suffix)
        invariant
            n == suffix@.len(),
            without_suffixes(s@, suffix@) == without_suffixes(cur@, suffix@),
        decreases cur@.len(),
    {
        let v = chars_of(cur.as_str());
        let k: usize = v.len() - n;
        assert(v@.subrange(0, k as int) =~= cur@.take(cur@.len() - suffix@.len()));
        cur = string_of(&v, 0, k);
    }
    cur
}

/// The place of the first occurrence of a character, or -1.
pub open spec fn first_at(s: Seq<char>, c: char) -> int
    decreases s.len(),
{
    if s.len() == 0 {
        -1
    } else if first_at(s.drop_last(), c) >= 0 {
        first_at(s.drop_last(), c)
    } else if s.last() == c {
        s.len() - 1
    } else {
        -1
    }
}

/// The first place of a character is the only one that holds it with none before.
pub proof fn lemma_first_at(s: Seq<char>, c: char, i: int)
    requires
        0 <= i < s.len(),
        s[i] == c,
        forall|j: int| 0 <= j < i ==> s[j] != c,
    ensures
        first_at(s, c) == i,
    decreases s.len(),
{
    let t = s.drop_last();
    if i == s.len() - 1 {
        lemma_not_at(t, c);
    } else {
        lemma_first_at(t, c, i);
    }
}

/// A character that does not occur has no first place.
pub proof fn lemma_not_at(s: Seq<char>, c: char)
    requires
        forall|j: int| 0 <= j < s.len() ==> s[j] != c,
    ensures
        first_at(s, c) == -1,
    decreases s.len(),
{
    if s.len() > 0 {
        lemma_not_at(s.drop_last(), c);
    }
}

/// Finds the first occurrence of a character from `from` on.
pub fn find_char(v: &Vec<char>, c: char, from: usize) -> (r: Option<usize>)
    requires
        from <= v.len(),
    ensures
        match r {
            Some(i) => from <= i < v.len() && i - from == first_at(v@.skip(from as int), c) && v@[
                i as int
            ] == c,
            None => first_at(v@.skip(from as int), c) == -1,
        },
{
    let ghost s = v@.skip(from as int);
    let mut i: usize = from;
    while i < v.len()
        invariant
            from <= i <= v.len(),
            s == v@.skip(from as int),
            forall|j: int| 0 <= j < i - from ==> s[j] != c,
        decreases v.len() - i,
    {
        if v[i] == c {
            proof {
                assert(s[i - from] == c);
                lemma_first_at(s, c, i - from);
            }
            return Some(i);
        }
        assert(s[i - from] != c);
        i = i + 1;
    }
    proof {
        lemma_not_at(s, c);
    }
    None
}

/// Whether a character occurs.
pub fn contains_char(s: &str, c: char) -> (r: bool)
    ensures
        r == s@.contains(c),
{
    let v = chars_of(s);
    let mut i: usize = 0;
    while i < v.len()
        invariant
            i <= v.len(),
            v@ == s@,
            forall|j: int| 0 <= j < i ==> s@[j] != c,
        decreases v.len() - i,
    {
        if v[i] == c {
            assert(s@[i as int] == c);
            return true;
        }
        i = i + 1;
    }
    false
}

/// Whether one text occurs in another.
pub open spec fn occurs(s: Seq<char>, part: Seq<char>) -> bool {
    exists|i: int| 0 <= i <= s.len() - part.len() && #[trigger] s.subrange(i, i + part.len()) == part
}

/// Tests whether one text occurs in another.
pub fn contains_text(s: &str, part: &str) -> (r: bool)
    ensures
        r == occurs(s@, part@),
{
    let v = chars_of(s);
    let p = chars_of(part);
    if p.len() > v.len() {
        return false;
    }
    let last: usize = v.len() - p.len();
    let mut i: usize = 0;
    while i <= last
        invariant
            i <= last + 1,
            last == v.len() - p.len(),
            v@ == s@,
            p@ == part@,
            forall|k: int|
                0 <= k < i ==> #[trigger] s@.subrange(k, k + part@.len()) != part@,
        ensures
            forall|k: int|
                0 <= k <= last ==> #[trigger] s@.subrange(k, k + part@.len()) != part@,
        decreases last + 1 - i,
    {
        let mut j: usize = 0;
        let mut ok: bool = true;
        while ok && j < p.len()
            invariant
                j <= p.len(),
                i <= last,
                last == v.len() - p.len(),
                v@ == s@,
                p@ == part@,
                ok ==> forall|k: int| 0 <= k < j ==> v@[i + k] == p@[k],
                !ok ==> exists|k: int| 0 <= k < p.len() && v@[i + k] != p@[k],
            decreases p.len() - j + (if ok { 1int } else { 0int }),
        {
            if v[i + j] == p[j] {
                j = j + 1;
            } else {
                ok = false;
            }
        }
        let ghost w = s@.subrange(i as int, i + part@.len());
        if ok {
            assert(w =~= part@);
            return true;
        }
        proof {
            let k = choose|k: int| 0 <= k < p.len() && v@[i + k] != p@[k];
            assert(w[k] != part@[k]);
        }
        if i == last {
            break ;
        }
        i = i + 1;
    }
    false
}

/// The parts of a text before and after the first occurrence of a character.
pub open spec fn cut_at(s: Seq<char>, c: char) -> Option<(Seq<char>, Seq<char>)> {
    let i = first_at(s, c);
    if i < 0 {
        None
    } else {
        Some((s.take(i), s.skip(i + 1)))
    }
}

/// Splits a text at the first occurrence of a character.
pub fn split_once(s: &str, c: char) -> (r: Option<(String, String)>)
    ensures
        match r {
            Some((a, b)) => cut_at(s@, c) == Some((a@, b@)),
            None => cut_at(s@, c) is None,
        },
{
    let v = chars_of(s);
    assert(v@.skip(0) =~= s@);
    match find_char(&v, c, 0) {
        None => None,
        Some(i) => {
            let a = string_of(&v, 0, i);
            let b = string_of(&v, i + 1, v.len());
            assert(a@ =~= s@.take(i as int));
            assert(b@ =~= s@.skip(i + 1));
            Some((a, b))
        },
    }
}

/// A line without a carriage return at its end.
pub open spec fn without_return(s: Seq<char>) -> Seq<char> {
    if s.len() > 0 && s.last() == '\r' {
        s.drop_last()
    } else {
        s
    }
}

/// The lines of a text: it is split at line feeds, a carriage return before a line feed
/// belongs to the line ending, and what follows the last line feed is a line unless it is
/// empty.
pub open spec fn lines_of(s: Seq<char>) -> Seq<Seq<char>> {
    let pieces = split_on(s, '\n');
    let ended = pieces.drop_last().map_values(|p: Seq<char>| without_return(p));
    if pieces.last().len() == 0 {
        ended
    } else {
        ended.push(pieces.last())
    }
}

/// Splits a text into its lines.
pub fn lines(s: &str) -> (r: Vec<String>)
    ensures
        texts(r@) == lines_of(s@),
{
    let pieces = split(s, '\n');
    let ghost ps = texts(pieces@);
    let ghost ended = ps.drop_last().map_values(|p: Seq<char>| without_return(p));
    let mut out: Vec<String> = Vec::new();
    let n: usize = pieces.len() - 1;
    let mut i: usize = 0;
    assert(texts(out@) =~= ended.take(0));
    while i < n
        invariant
            i <= n,
            n == pieces.len() - 1,
            ps == texts(pieces@),
            ended == ps.drop_last().map_values(|p: Seq<char>| without_return(p)),
            texts(out@) == ended.take(i as int),
        decreases n - i,
    {
        let v = chars_of(pieces[i].as_str());
        assert(v@ == ps[i as int]);
        assert(ended[i as int] == without_return(ps[i as int]));
        let ghost before = out@;
        if v.len() > 0 && v[v.len() - 1] == '\r' {
            let line = string_of(&v, 0, v.len() - 1);
            assert(line@ =~= v@.drop_last());
            out.push(line);
        } else {
            let line = string_of(&v, 0, v.len());
            assert(line@ =~= v@);
            out.push(line);
        }
        i = i + 1;
        assert(texts(out@) =~= texts(before).push(ended[i - 1]));
        assert(ended.take(i as int) =~= ended.take(i - 1).push(ended[i - 1]));
    }
    assert(ended.take(i as int) =~= ended);
    assert(ps.last() == pieces@[n as int]@);
    if !pieces[n].as_str().is_empty() {
        let ghost before = out@;
        out.push(pieces[n].clone());
        assert(texts(out@) =~= texts(before).push(ps.last()));
    }
    out
}

/// The texts of a list with `sep` between them.
pub open spec fn joined(parts: Seq<Seq<char>>, sep: Seq<char>) -> Seq<char>
    decreases parts.len(),
{
    if parts.len() == 0 {
        Seq::empty()
    } else if parts.len() == 1 {
        parts[0]
    } else {
        joined(parts.drop_last(), sep) + sep + parts.last()
    }
}

/// Joining the pieces of a text with the character that it was split at gives the text back.
pub proof fn splitting_and_joining(s: Seq<char>, sep: char)
    ensures
        split_on(s, sep).len() > 0,
        joined(split_on(s, sep), seq![sep]) == s,
    decreases s.len(),
{
    if s.len() > 0 {
        let t = s.drop_last();
        splitting_and_joining(t, sep);
        let rest = split_on(t, sep);
        let all = split_on(s, sep);
        if s.last() == sep {
            assert(all.drop_last() =~= rest);
            assert(joined(all, seq![sep]) =~= joined(rest, seq![sep]) + seq![sep]);
        } else {
            assert(all.drop_last() =~= rest.drop_last());
            assert(all.last() == rest.last().push(s.last()));
            assert(joined(all, seq![sep]) =~= joined(rest, seq![sep]).push(s.last()));
        }
        assert(joined(all, seq![sep]) =~= s);
    } else {
        assert(joined(split_on(s, sep), seq![sep]) =~= s);
    }
}

/// Joins the texts of a list.
pub fn join(parts: &Vec<String>, sep: &str) -> (r: String)
    ensures
        r@ == joined(texts(parts@), sep@),
{
    let ghost ps = texts(parts@);
    let mut out: String = String::new();
    let mut i: usize = 0;
    assert(ps.take(0) =~= Seq::<Seq<char>>::empty());
    while i < parts.len()
        invariant
            i <= parts.len(),
            ps == texts(parts@),
            out@ == joined(ps.take(i as int), sep@),
        decreases parts.len() - i,
    {
        if i > 0 {
            out.push_str(sep);
        }
        out.push_str(parts[i].as_str());
        assert(ps.take(i + 1).drop_last() =~= ps.take(i as int));
        assert(ps[i as int] == parts@[i as int]@);
        if i == 0 {
            assert(out@ =~= ps.take(1)[0]);
        }
        i = i + 1;
    }
    assert(ps.take(i as int) =~= ps);
    out
}

/// The lower-case hexadecimal digit of a number below sixteen.
pub open spec fn hex_digit(n: int) -> char {
    if n < 10 {
        ((n + 48) as u8) as char
    } else {
        ((n + 87) as u8) as char
    }
}

/// The lower-case hexadecimal spelling of a row of bytes, two digits each.
pub open spec fn hex_text(bytes: Seq<u8>) -> Seq<char>
    decreases bytes.len(),
{
    if bytes.len() == 0 {
        Seq::empty()
    } else {
        hex_text(bytes.drop_last()).push(hex_digit(bytes.last() as int / 16)).push(
            hex_digit(bytes.last() as int % 16),
        )
    }
}

pub fn hex_char(n: u8) -> (r: char)
    requires
        n < 16,
    ensures
        r == hex_digit(n as int),
{
    if n < 10 {
        (n + 48) as char
    } else {
        (n + 87) as char
    }
}

/// Spells bytes in hexadecimal.
pub fn hex(bytes: &Vec<u8>) -> (r: String)
    ensures
        r@ == hex_text(bytes@),
{
    let mut out: String = String::new();
    let mut i: usize = 0;
    assert(bytes@.take(0) =~= Seq::<u8>::empty());
    while i < bytes.len()
        invariant
            i <= bytes.len(),
            out@ == hex_text(bytes@.take(i as int)),
        decreases bytes.len() - i,
    {
        let b: u8 = bytes[i];
        out.push(hex_char(b / 16));
        out.push(hex_char(b % 16));
        assert(bytes@.take(i + 1).drop_last() =~= bytes@.take(i as int));
        i = i + 1;
    }
    assert(bytes@.take(i as int) =~= bytes@);
    out
}

/// The decimal spelling of a number.
pub open spec fn decimal_text(n: nat) -> Seq<char>
    decreases n,
{
    if n < 10 {
        seq![hex_digit(n as int)]
    } else {
        decimal_text(n / 10).push(hex_digit((n % 10) as int))
    }
}

/// Spells a number in decimal.
pub fn decimal(n: u64) -> (r: String)
    ensures
        r@ == decimal_text(n as nat),
    decreases n,
{
    if n < 10 {
        let mut out: String = String::new();
        out.push(hex_char(n as u8));
        assert(out@ =~= seq![hex_digit(n as int)]);
        out
    } else {
        let mut out = decimal(n / 10);
        out.push(hex_char((n % 10) as u8));
        out
    }
}

/// A hexadecimal digit of either case.
pub open spec fn is_hex_digit(c: char) -> bool {
    is_digit(c) || ('a' <= c && c <= 'f') || ('A' <= c && c <= 'F')
}

/// Only hexadecimal digits.
pub open spec fn is_hex(s: Seq<char>) -> bool {
    forall|i: int| 0 <= i < s.len() ==> is_hex_digit(#[trigger] s[i])
}

/// Tests for hexadecimal digits.
pub fn all_hex(v: &Vec<char>) -> (r: bool)
    ensures
        r == is_hex(v@),
{
    let mut i: usize = 0;
    while i < v.len()
        invariant
            i <= v.len(),
            forall|j: int| 0 <= j < i ==> is_hex_digit(#[trigger] v@[j]),
        decreases v.len() - i,
    {
        let c: char = v[i];
        if !(digit(c) || ('a' <= c && c <= 'f') || ('A' <= c && c <= 'F')) {
            return false;
        }
        i = i + 1;
    }
    true
}

/// Some character is white space or a control character.
pub open spec fn has_blank(s: Seq<char>) -> bool {
    exists|i: int| 0 <= i < s.len() && (is_control(#[trigger] s[i]) || is_white_space(s[i]))
}

/// Tests for white space and control characters.
pub fn blank(s: &str) -> (r: bool)
    ensures
        r == has_blank(s@),
{
    let v = chars_of(s);
    let mut i: usize = 0;
    while i < v.len()
        invariant
            i <= v.len(),
            v@ == s@,
            forall|j: int|
                0 <= j < i ==> !is_control(#[trigger] s@[j]) && !is_white_space(s@[j]),
        decreases v.len() - i,
    {
        if control(v[i]) || white_space(v[i]) {
            assert(is_control(s@[i as int]) || is_white_space(s@[i as int]));
            return true;
        }
        i = i + 1;
    }
    false
}

/// `a` followed by `b`.
pub fn cat(a: &str, b: &str) -> (r: String)
    ensures
        r@ == a@ + b@,
{
    let mut out: String = a.to_owned();
    out.push_str(b);
    out
}

/// `a`, `b` and `c` in a row.
pub fn cat3(a: &str, b: &str, c: &str) -> (r: String)
    ensures
        r@ == a@ + b@ + c@,
{
    let mut out = cat(a, b);
    out.push_str(c);
    out
}

/// `a`, `b`, `c` and `d` in a row.
pub fn cat4(a: &str, b: &str, c: &str, d: &str) -> (r: String)
    ensures
        r@ == a@ + b@ + c@ + d@,
{
    let mut out = cat3(a, b, c);
    out.push_str(d);
    out
}

/// The bytes of a text are those of its first part, then those of the rest.
pub proof fn lemma_bytes_of_parts(a: Seq<char>, b: Seq<char>)
    ensures
        encode_utf8(a + b) == encode_utf8(a) + encode_utf8(b),
    decreases a.len(),
{
    if a.len() == 0 {
        assert(a + b =~= b);
        assert(encode_utf8(a) =~= Seq::<u8>::empty());
    } else {
        assert((a + b).drop_first() =~= a.drop_first() + b);
        lemma_bytes_of_parts(a.drop_first(), b);
    }
}

/// Only white space.
pub open spec fn is_blank(s: Seq<char>) -> bool {
    forall|i: int| 0 <= i < s.len() ==> is_white_space(#[trigger] s[i])
}

proof fn lemma_trim_start(s: Seq<char>) -> (n: int)
    ensures
        0 <= n <= s.len(),
        trim_start(s) == s.skip(n),
        is_blank(s.take(n)),
        n < s.len() ==> !is_white_space(s[n]),
    decreases s.len(),
{
    if s.len() > 0 && is_white_space(s[0]) {
        let t = s.drop_first();
        let m = lemma_trim_start(t);
        assert(t.skip(m) =~= s.skip(m + 1));
        assert forall|i: int| 0 <= i < m + 1 implies is_white_space(
            #[trigger] s.take(m + 1)[i],
        ) by {
            if i > 0 {
                assert(s.take(m + 1)[i] == t.take(m)[i - 1]);
            }
        }
        m + 1
    } else {
        assert(s.skip(0) =~= s);
        0
    }
}

proof fn lemma_trim_end(s: Seq<char>) -> (n: int)
    ensures
        0 <= n <= s.len(),
        trim_end(s) == s.take(n),
        is_blank(s.skip(n)),
        n > 0 ==> !is_white_space(s[n - 1]),
    decreases s.len(),
{
    if s.len() > 0 && is_white_space(s.last()) {
        let t = s.drop_last();
        let m = lemma_trim_end(t);
        assert(t.take(m) =~= s.take(m));
        assert forall|i: int| 0 <= i < s.skip(m).len() implies is_white_space(
            #[trigger] s.skip(m)[i],
        ) by {
            if i < t.skip(m).len() {
                assert(s.skip(m)[i] == t.skip(m)[i]);
            }
        }
        m
    } else {
        assert(s.take(s.len() as int) =~= s);
        s.len() as int
    }
}

/// Trimming takes white space from both ends of a text and nothing else, and leaves none there.
pub proof fn trimming_takes_white_space(s: Seq<char>) -> (r: (int, int))
    ensures
        0 <= r.0 <= r.1 <= s.len(),
        trimmed(s) == s.subrange(r.0, r.1),
        is_blank(s.take(r.0)),
        is_blank(s.skip(r.1)),
        trimmed(s).len() > 0 ==> !is_white_space(trimmed(s)[0]) && !is_white_space(
            trimmed(s).last(),
        ),
{
    let a = lemma_trim_start(s);
    let t = s.skip(a);
    let b = lemma_trim_end(t);
    assert(t.take(b) =~= s.subrange(a, a + b));
    assert(t.skip(b) =~= s.skip(a + b));
    (a, a + b)
}

/// The digits of a number are read back as the number, and each digit counts ten times as much
/// as the next one.
pub proof fn numbers_are_read_back(n: nat, s: Seq<char>, digit: char)
    ensures
        is_number(decimal_text(n)),
        number_value(decimal_text(n)) == n,
        n > 0 ==> decimal_text(n)[0] != '0',
        '0' <= digit && digit <= '9' ==> number_value(s.push(digit)) == 10 * number_value(s) + (
        digit as int - 48),
    decreases n,
{
    assert(s.push(digit).drop_last() =~= s);
    let d = decimal_text(n);
    if n < 10 {
        assert(d.drop_last() =~= Seq::<char>::empty());
        assert(number_value(d.drop_last()) == 0);
    } else {
        numbers_are_read_back(n / 10, s, digit);
        assert(d.drop_last() =~= decimal_text(n / 10));
        assert forall|i: int| 0 <= i < d.len() implies is_digit(#[trigger] d[i]) by {
            if i < d.len() - 1 {
                assert(d[i] == decimal_text(n / 10)[i]);
            }
        }
        assert(d[0] == decimal_text(n / 10)[0]);
    }
}

/// What a hexadecimal digit in lower case counts.
pub open spec fn digit_value(c: char) -> int {
    if '0' <= c && c <= '9' {
        c as int - 48
    } else {
        c as int - 87
    }
}

/// Each byte is spelled by two digits in lower case, the first of which counts sixteen times
/// as much as the second.
pub proof fn bytes_are_spelled_by_two_digits(bytes: Seq<u8>, i: int)
    ensures
        hex_text(bytes).len() == 2 * bytes.len(),
        0 <= i < bytes.len() ==> {
            let a = hex_text(bytes)[2 * i];
            let b = hex_text(bytes)[2 * i + 1];
            &&& ('0' <= a && a <= '9') || ('a' <= a && a <= 'f')
            &&& ('0' <= b && b <= '9') || ('a' <= b && b <= 'f')
            &&& bytes[i] == 16 * digit_value(a) + digit_value(b)
        },
    decreases bytes.len(),
{
    if bytes.len() > 0 {
        let t = bytes.drop_last();
        bytes_are_spelled_by_two_digits(t, i);
        let all = hex_text(bytes);
        let rest = hex_text(t);
        if 0 <= i < t.len() {
            assert(all[2 * i] == rest[2 * i] && all[2 * i + 1] == rest[2 * i + 1]);
        } else if i == t.len() {
            assert(all[2 * i] == hex_digit(bytes.last() as int / 16));
            assert(all[2 * i + 1] == hex_digit(bytes.last() as int % 16));
        }
    }
}

proof fn lemma_split_push(s: Seq<char>, seps: Set<char>, tail: Seq<char>, sep: char)
    requires
        seps.contains(sep),
        forall|i: int| 0 <= i < tail.len() ==> !seps.contains(#[trigger] tail[i]),
    ensures
        split_by(s.push(sep) + tail, seps) == split_by(s, seps).push(tail),
    decreases tail.len(),
{
    let all = s.push(sep) + tail;
    if tail.len() == 0 {
        assert(all.drop_last() =~= s);
        assert(tail =~= Seq::<char>::empty());
    } else {
        let t = tail.drop_last();
        assert forall|i: int| 0 <= i < t.len() implies !seps.contains(#[trigger] t[i]) by {
            assert(t[i] == tail[i]);
        }
        lemma_split_push(s, seps, t, sep);
        assert(all.drop_last() =~= s.push(sep) + t);
        assert(all.last() == tail[tail.len() - 1]);
        let rest = split_by(s, seps).push(t);
        assert(rest.drop_last() =~= split_by(s, seps));
        assert(t.push(tail.last()) =~= tail);
    }
}

proof fn lemma_split_one(tail: Seq<char>, seps: Set<char>)
    requires
        forall|i: int| 0 <= i < tail.len() ==> !seps.contains(#[trigger] tail[i]),
    ensures
        split_by(tail, seps) == seq![tail],
    decreases tail.len(),
{
    if tail.len() > 0 {
        let t = tail.drop_last();
        assert forall|i: int| 0 <= i < t.len() implies !seps.contains(#[trigger] t[i]) by {
            assert(t[i] == tail[i]);
        }
        lemma_split_one(t, seps);
        assert(!seps.contains(tail[tail.len() - 1]));
        assert(split_by(tail, seps) =~= seq![t.push(tail.last())]);
        assert(t.push(tail.last()) =~= tail);
    } else {
        assert(tail =~= Seq::<char>::empty());
    }
}

/// Splitting takes a text apart at each separator: a text without one is its only piece, and
/// what follows the last one is the last piece.
pub proof fn splitting_takes_apart(s: Seq<char>, seps: Set<char>, sep: char, tail: Seq<char>)
    requires
        seps.contains(sep),
        forall|i: int| 0 <= i < tail.len() ==> !seps.contains(#[trigger] tail[i]),
    ensures
        split_by(tail, seps) == seq![tail],
        split_by(s.push(sep) + tail, seps) == split_by(s, seps).push(tail),
{
    lemma_split_one(tail, seps);
    lemma_split_push(s, seps, tail, sep);
}

/// A line ends with a line feed, before which a carriage return is no part of it; what follows
/// the last line feed is a line if it is not empty.
pub proof fn lines_end_with_line_feeds(before: Seq<char>, line: Seq<char>)
    requires
        forall|i: int| 0 <= i < line.len() ==> #[trigger] line[i] != '\n',
    ensures
        lines_of(Seq::empty()).len() == 0,
        line.len() > 0 ==> lines_of(line) == seq![line],
        line.len() > 0 ==> lines_of(before.push('\n') + line) == lines_of(before.push('\n')).push(
            line,
        ),
        line.len() == 0 || line.last() != '\r' ==> lines_of(before.push('\n') + line.push('\n'))
            == lines_of(before.push('\n')).push(line),
        lines_of(before.push('\n') + line.push('\r').push('\n')) == lines_of(
            before.push('\n'),
        ).push(line),
        line.len() == 0 || line.last() != '\r' ==> lines_of(line.push('\n')) == seq![line],
        lines_of(line.push('\r').push('\n')) == seq![line],
{
    let nl = set!['\n'];
    let none = Seq::<char>::empty();
    let head = before.push('\n');
    let pieces = split_by(before, nl);
    lemma_split_one(none, nl);
    lemma_split_one(line, nl);
    lemma_split_push(before, nl, none, '\n');
    assert(head + none =~= head);
    assert(split_by(head, nl) == pieces.push(none));
    assert(pieces.push(none).drop_last() =~= pieces);
    lemma_split_push(before, nl, line, '\n');
    assert(pieces.push(line).drop_last() =~= pieces);
    assert(lines_of(none) =~= Seq::<Seq<char>>::empty());
    assert(seq![line].drop_last() =~= Seq::<Seq<char>>::empty());
    if line.len() > 0 {
        assert(lines_of(line) =~= seq![line]);
    }
    // A line that is ended.
    let a = head + line;
    lemma_split_push(a, nl, none, '\n');
    assert(a.push('\n') + none =~= head + line.push('\n'));
    assert(split_by(head + line.push('\n'), nl) == pieces.push(line).push(none));
    assert(pieces.push(line).push(none).drop_last() =~= pieces.push(line));
    assert(lines_of(head + line.push('\n')) =~= lines_of(head).push(without_return(line)));
    let back = line.push('\r');
    assert(back.drop_last() =~= line);
    assert forall|i: int| 0 <= i < back.len() implies !nl.contains(#[trigger] back[i]) by {
        if i < line.len() {
            assert(back[i] == line[i]);
        }
    }
    lemma_split_push(before, nl, back, '\n');
    lemma_split_push(head + back, nl, none, '\n');
    assert((head + back).push('\n') + none =~= head + back.push('\n'));
    assert(pieces.push(back).push(none).drop_last() =~= pieces.push(back));
    assert(lines_of(head + back.push('\n')) =~= lines_of(head).push(line));
    // A first line.
    lemma_split_push(line, nl, none, '\n');
    assert(line.push('\n') + none =~= line.push('\n'));
    assert(seq![line].push(none).drop_last() =~= seq![line]);
    assert(lines_of(line.push('\n')) =~= seq![without_return(line)]);
    lemma_split_one(back, nl);
    lemma_split_push(back, nl, none, '\n');
    assert(back.push('\n') + none =~= back.push('\n'));
    assert(seq![back].push(none).drop_last() =~= seq![back]);
    assert(lines_of(back.push('\n')) =~= seq![line]);
}

/// A text is cut at the first occurrence of a character, which is in neither part.
pub proof fn texts_are_cut_at_the_first_occurrence(a: Seq<char>, c: char, b: Seq<char>)
    requires
        !a.contains(c),
    ensures
        cut_at(a, c) is None,
        cut_at(a + seq![c] + b, c) == Some((a, b)),
{
    let s = a + seq![c] + b;
    assert forall|j: int| 0 <= j < a.len() implies a[j] != c by {
        assert(a.contains(a[j]));
    }
    lemma_not_at(a, c);
    assert(s[a.len() as int] == c);
    assert forall|j: int| 0 <= j < a.len() implies s[j] != c by {
        assert(s[j] == a[j]);
    }
    lemma_first_at(s, c, a.len() as int);
    assert(s.take(a.len() as int) =~= a);
    assert(s.skip((a.len() + 1) as int) =~= b);
}

/// A text begins with what stands before the rest of it, and ends with what stands after; one
/// that begins or ends with another text can be taken apart there.
pub proof fn texts_begin_and_end(a: Seq<char>, b: Seq<char>)
    ensures
        has_prefix(a + b, a),
        has_suffix(a + b, b),
        has_prefix(a, b) ==> a == b + a.skip(b.len() as int),
        has_suffix(a, b) ==> a == a.take(a.len() - b.len()) + b,
{
    assert((a + b).take(a.len() as int) =~= a);
    assert((a + b).skip(a.len() as int) =~= b);
    if has_prefix(a, b) {
        assert(a =~= b + a.skip(b.len() as int));
    }
    if has_suffix(a, b) {
        assert(a =~= a.take(a.len() - b.len()) + b);
    }
}

/// Lower case changes the letters of the alphabet alone, each to its small form.
pub proof fn lower_case_changes_letters(s: Seq<char>, i: int)
    requires
        0 <= i < s.len(),
    ensures
        lowered(s).len() == s.len(),
        'A' <= s[i] && s[i] <= 'Z' ==> lowered(s)[i] as int == s[i] as int + 32,
        !('A' <= s[i] && s[i] <= 'Z') ==> lowered(s)[i] == s[i],
{
}

/// Joining puts the separator between the texts, and nowhere else.
pub proof fn joining_puts_separators_between(parts: Seq<Seq<char>>, sep: Seq<char>, last: Seq<char>)
    ensures
        joined(Seq::empty(), sep) == Seq::<char>::empty(),
        joined(seq![last], sep) == last,
        parts.len() > 0 ==> joined(parts.push(last), sep) == joined(parts, sep) + sep + last,
{
    assert(parts.push(last).drop_last() =~= parts);
}

} // verus!
