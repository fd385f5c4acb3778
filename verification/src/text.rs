//! Text as sequences of characters: the few string operations the crate needs,
//! each stated over `Seq<char>`.

use vstd::prelude::*;

verus! {

/// `String::push` of the standard library appends one character.
pub assume_specification[ String::push ](string: &mut String, c: char)
    ensures
        final(string)@ == old(string)@.push(c),
;

/// The character of one decimal digit.
pub open spec fn digit(d: nat) -> char {
    (48 + d) as char
}

/// `n` written in decimal, without leading zeros.
pub open spec fn decimal(n: nat) -> Seq<char>
    decreases n,
{
    if n < 10 {
        seq![digit(n)]
    } else {
        decimal(n / 10).push(digit(n % 10))
    }
}

/// One character with an ASCII capital letter made small.
pub open spec fn lower_char(c: char) -> char {
    if 'A' <= c <= 'Z' {
        (c as u32 + 32) as char
    } else {
        c
    }
}

/// One character with an ASCII small letter made capital.
pub open spec fn upper_char(c: char) -> char {
    if 'a' <= c <= 'z' {
        (c as u32 - 32) as char
    } else {
        c
    }
}

/// The text with its ASCII capital letters made small.
pub open spec fn lower(s: Seq<char>) -> Seq<char> {
    s.map_values(|c: char| lower_char(c))
}

/// The text with its ASCII small letters made capital.
pub open spec fn upper(s: Seq<char>) -> Seq<char> {
    s.map_values(|c: char| upper_char(c))
}

/// Whether `s` ends in `suffix`.
pub open spec fn ends_with(s: Seq<char>, suffix: Seq<char>) -> bool {
    &&& suffix.len() <= s.len()
    &&& s.skip(s.len() - suffix.len()) == suffix
}

/// Whether `s` starts with `prefix`.
pub open spec fn starts_with(s: Seq<char>, prefix: Seq<char>) -> bool {
    &&& prefix.len() <= s.len()
    &&& s.take(prefix.len() as int) == prefix
}

/// The part of `s` before the first `a` or `b`; all of `s` where neither occurs.
pub open spec fn before_either(s: Seq<char>, a: char, b: char) -> Seq<char>
    decreases s.len(),
{
    if s.len() == 0 || s[0] == a || s[0] == b {
        Seq::empty()
    } else {
        seq![s[0]] + before_either(s.skip(1), a, b)
    }
}

/// The pieces of `s` between the occurrences of `separator`, in order. There is
/// always at least one piece, and pieces may be empty.
pub open spec fn split(s: Seq<char>, separator: char) -> Seq<Seq<char>>
    decreases s.len(),
{
    if s.len() == 0 {
        seq![Seq::empty()]
    } else {
        let before = split(s.drop_last(), separator);
        if s.last() == separator {
            before.push(Seq::empty())
        } else {
            before.drop_last().push(before.last().push(s.last()))
        }
    }
}

/// The pieces in order, with one `separator` between each two neighbours.
pub open spec fn join(pieces: Seq<Seq<char>>, separator: char) -> Seq<char>
    decreases pieces.len(),
{
    if pieces.len() == 0 {
        Seq::empty()
    } else if pieces.len() == 1 {
        pieces[0]
    } else {
        join(pieces.drop_last(), separator).push(separator) + pieces.last()
    }
}

/// `s` with each occurrence of `pattern`, taken from the left without overlap,
/// replaced by `with`.
pub open spec fn replace(s: Seq<char>, pattern: Seq<char>, with: Seq<char>) -> Seq<char>
    decreases s.len(),
{
    if s.len() == 0 || pattern.len() == 0 {
        s
    } else if starts_with(s, pattern) {
        with + replace(s.skip(pattern.len() as int), pattern, with)
    } else {
        seq![s[0]] + replace(s.skip(1), pattern, with)
    }
}

/// Whether Unicode gives `c` the property `White_Space`.
pub open spec fn is_white_space(c: char) -> bool {
    let n = c as u32;
    ||| 0x09 <= n <= 0x0d
    ||| n == 0x20
    ||| n == 0x85
    ||| n == 0xa0
    ||| n == 0x1680
    ||| 0x2000 <= n <= 0x200a
    ||| n == 0x2028
    ||| n == 0x2029
    ||| n == 0x202f
    ||| n == 0x205f
    ||| n == 0x3000
}

/// `s` without the white space at its start.
pub open spec fn trim_start(s: Seq<char>) -> Seq<char>
    decreases s.len(),
{
    if s.len() > 0 && is_white_space(s[0]) {
        trim_start(s.skip(1))
    } else {
        s
    }
}

/// `s` without the white space at its end.
pub open spec fn trim_end(s: Seq<char>) -> Seq<char>
    decreases s.len(),
{
    if s.len() > 0 && is_white_space(s.last()) {
        trim_end(s.drop_last())
    } else {
        s
    }
}

/// `s` without the white space at either end.
pub open spec fn trim(s: Seq<char>) -> Seq<char> {
    trim_end(trim_start(s))
}

/// `s` with as many spaces behind it as it takes to be `width` characters long.
pub open spec fn padded(s: Seq<char>, width: nat) -> Seq<char> {
    s + Seq::new(
        if s.len() < width {
            (width - s.len()) as nat
        } else {
            0
        },
        |i: int| ' ',
    )
}

/// The texts of a sequence of strings.
pub open spec fn texts(strings: Seq<String>) -> Seq<Seq<char>> {
    strings.map_values(|s: String| s@)
}

/// The characters of a string slice.
pub fn chars_of(text: &str) -> (out: Vec<char>)
    ensures
        out@ == text@,
{
    let mut out: Vec<char> = Vec::new();
    for c in iter: text.chars()
        invariant
            out@ == text@.take(iter.index()),
            iter.seq() == text@,
    {
        out.push(c);
    }
    assert(text@.take(text@.len() as int) =~= text@);
    out
}

/// The string made of `chars[from..to]`.
pub fn text_of(chars: &Vec<char>, from: usize, to: usize) -> (out: String)
    requires
        from <= to <= chars@.len(),
    ensures
        out@ == chars@.subrange(from as int, to as int),
{
    let mut out = String::new();
    let mut i: usize = from;
    while i < to
        invariant
            from <= i <= to <= chars@.len(),
            out@ == chars@.subrange(from as int, i as int),
        decreases to - i,
    {
        out.push(chars[i]);
        i += 1;
    }
    out
}

/// Writes `n` in decimal.
pub fn decimal_text(n: u64) -> (out: String)
    ensures
        out@ == decimal(n as nat),
    decreases n,
{
    if n < 10 {
        let mut out = String::new();
        out.push((48u8 + (n as u8)) as char);
        out
    } else {
        let mut out = decimal_text(n / 10);
        out.push((48u8 + ((n % 10) as u8)) as char);
        out
    }
}

/// Whether two string slices hold the same characters.
pub fn same_text(a: &str, b: &str) -> (out: bool)
    ensures
        out == (a@ == b@),
{
    a.to_owned() == b.to_owned()
}

/// `text` with its ASCII capital letters made small.
pub fn ascii_lower(text: &str) -> (out: String)
    ensures
        out@ == lower(text@),
{
    let mut out = String::new();
    for c in iter: text.chars()
        invariant
            out@ == lower(text@.take(iter.index())),
            iter.seq() == text@,
    {
        let mapped: char = if 'A' <= c && c <= 'Z' {
            ((c as u8) + 32u8) as char
        } else {
            c
        };
        out.push(mapped);
        assert(lower(text@.take(iter.index() + 1)) =~= lower(text@.take(iter.index())).push(mapped));
    }
    assert(text@.take(text@.len() as int) =~= text@);
    out
}

/// `text` with its ASCII small letters made capital.
pub fn ascii_upper(text: &str) -> (out: String)
    ensures
        out@ == upper(text@),
{
    let mut out = String::new();
    for c in iter: text.chars()
        invariant
            out@ == upper(text@.take(iter.index())),
            iter.seq() == text@,
    {
        let mapped: char = if 'a' <= c && c <= 'z' {
            ((c as u8) - 32u8) as char
        } else {
            c
        };
        out.push(mapped);
        assert(upper(text@.take(iter.index() + 1)) =~= upper(text@.take(iter.index())).push(mapped));
    }
    assert(text@.take(text@.len() as int) =~= text@);
    out
}

/// Whether `text` ends in `suffix`.
pub fn has_suffix(text: &str, suffix: &str) -> (out: bool)
    ensures
        out == ends_with(text@, suffix@),
{
    let whole = chars_of(text);
    let end = chars_of(suffix);
    if end.len() > whole.len() {
        return false;
    }
    let start: usize = whole.len() - end.len();
    let mut i: usize = 0;
    while i < end.len()
        invariant
            i <= end.len() <= whole.len(),
            start == whole.len() - end.len(),
            whole@ == text@,
            end@ == suffix@,
            forall|j: int| 0 <= j < i ==> whole@[start + j] == end@[j],
        decreases end@.len() - i,
    {
        if whole[start + i] != end[i] {
            assert(whole@.skip(start as int)[i as int] == whole@[start + i]);
            return false;
        }
        i += 1;
    }
    assert(whole@.skip(start as int) =~= end@);
    true
}

/// Whether `chars[at..]` starts with `pattern`.
pub fn matches_at(chars: &Vec<char>, at: usize, pattern: &Vec<char>) -> (out: bool)
    requires
        at <= chars@.len(),
    ensures
        out == starts_with(chars@.skip(at as int), pattern@),
{
    if pattern.len() > chars.len() - at {
        return false;
    }
    let mut i: usize = 0;
    while i < pattern.len()
        invariant
            i <= pattern.len() <= chars.len() - at,
            at <= chars.len(),
            forall|j: int| 0 <= j < i ==> chars@[at + j] == pattern@[j],
        decreases pattern@.len() - i,
    {
        if chars[at + i] != pattern[i] {
            assert(chars@.skip(at as int).take(pattern@.len() as int)[i as int] == chars@[at + i]);
            return false;
        }
        i += 1;
    }
    assert(chars@.skip(at as int).take(pattern@.len() as int) =~= pattern@);
    true
}

/// Whether `c` occurs in `text`.
pub fn has_char(text: &str, c: char) -> (out: bool)
    ensures
        out == text@.contains(c),
{
    let chars = chars_of(text);
    let mut i: usize = 0;
    while i < chars.len()
        invariant
            i <= chars@.len(),
            chars@ == text@,
            forall|j: int| 0 <= j < i ==> chars@[j] != c,
        decreases chars@.len() - i,
    {
        if chars[i] == c {
            assert(text@[i as int] == c);
            return true;
        }
        i += 1;
    }
    false
}

/// What comes before the first of two characters is the text up to there.
pub proof fn lemma_before_either_is_prefix(s: Seq<char>, a: char, b: char, n: int)
    requires
        0 <= n <= s.len(),
        forall|j: int| 0 <= j < n ==> s[j] != a && s[j] != b,
        n == s.len() || s[n] == a || s[n] == b,
    ensures
        before_either(s, a, b) == s.take(n),
    decreases s.len(),
{
    if n > 0 {
        lemma_before_either_is_prefix(s.skip(1), a, b, n - 1);
        assert(seq![s[0]] + s.skip(1).take(n - 1) =~= s.take(n));
    } else {
        assert(s.take(0) =~= Seq::<char>::empty());
    }
}

/// What comes before the first of two characters holds neither, and the text goes on
/// with one of them or ends there.
pub proof fn lemma_before_either_splits(s: Seq<char>, a: char, b: char)
    ensures
        ({
            let head = before_either(s, a, b);
            &&& head.len() <= s.len()
            &&& s.take(head.len() as int) == head
            &&& !head.contains(a)
            &&& !head.contains(b)
            &&& head.len() == s.len() || s[head.len() as int] == a || s[head.len() as int] == b
        }),
    decreases s.len(),
{
    let head = before_either(s, a, b);
    if s.len() > 0 && s[0] != a && s[0] != b {
        let rest = s.skip(1);
        let tail = before_either(rest, a, b);
        lemma_before_either_splits(rest, a, b);
        assert(head =~= seq![s[0]] + tail);
        assert(s.take(head.len() as int) =~= seq![s[0]] + rest.take(tail.len() as int));
        assert forall|c: char| head.contains(c) implies c == s[0] || tail.contains(c) by {
            let i = choose|i: int| 0 <= i < head.len() && head[i] == c;
            if i > 0 {
                assert(tail[i - 1] == c);
            }
        }
    } else {
        assert(s.take(0) =~= head);
    }
}

/// What comes before a character that occurs is shorter than the whole.
pub proof fn lemma_before_either_length(s: Seq<char>, a: char, b: char)
    ensures
        before_either(s, a, b).len() <= s.len(),
        s.contains(a) || s.contains(b) ==> before_either(s, a, b).len() < s.len(),
    decreases s.len(),
{
    if s.len() > 0 && s[0] != a && s[0] != b {
        lemma_before_either_length(s.skip(1), a, b);
        if s.contains(a) {
            let i = choose|i: int| 0 <= i < s.len() && s[i] == a;
            assert(s.skip(1)[i - 1] == a);
        }
        if s.contains(b) {
            let i = choose|i: int| 0 <= i < s.len() && s[i] == b;
            assert(s.skip(1)[i - 1] == b);
        }
    }
}

/// The part of `text` before the first `a` or `b`.
pub fn text_before_either(text: &str, a: char, b: char) -> (out: String)
    ensures
        out@ == before_either(text@, a, b),
{
    let chars = chars_of(text);
    let mut i: usize = 0;
    while i < chars.len() && chars[i] != a && chars[i] != b
        invariant
            i <= chars@.len(),
            forall|j: int| 0 <= j < i ==> chars@[j] != a && chars@[j] != b,
        decreases chars@.len() - i,
    {
        i += 1;
    }
    proof {
        lemma_before_either_is_prefix(text@, a, b, i as int);
        assert(chars@.subrange(0, i as int) =~= text@.take(i as int));
    }
    text_of(&chars, 0, i)
}

/// There is always at least one piece.
pub proof fn lemma_split_nonempty(s: Seq<char>, separator: char)
    ensures
        split(s, separator).len() > 0,
    decreases s.len(),
{
    if s.len() > 0 {
        lemma_split_nonempty(s.drop_last(), separator);
    }
}

/// The pieces of `text` between the occurrences of `separator`.
pub fn split_text(text: &str, separator: char) -> (out: Vec<String>)
    ensures
        texts(out@) == split(text@, separator),
{
    let mut out: Vec<String> = Vec::new();
    let mut piece = String::new();
    for c in iter: text.chars()
        invariant
            texts(out@).push(piece@) == split(text@.take(iter.index()), separator),
            iter.seq() == text@,
    {
        let ghost n = iter.index();
        let ghost before = texts(out@).push(piece@);
        proof {
            assert(text@.take(n + 1).drop_last() =~= text@.take(n));
            assert(before.drop_last() =~= texts(out@));
        }
        if c == separator {
            let ghost done = out@;
            let ghost last = piece@;
            out.push(piece);
            piece = String::new();
            assert(texts(out@) =~= texts(done).push(last));
        } else {
            piece.push(c);
        }
    }
    assert(text@.take(text@.len() as int) =~= text@);
    let ghost done = out@;
    let ghost last = piece@;
    out.push(piece);
    assert(texts(out@) =~= texts(done).push(last));
    out
}

/// Appending text without the separator only extends the last piece.
pub proof fn lemma_split_append(s: Seq<char>, t: Seq<char>, separator: char)
    requires
        !t.contains(separator),
    ensures
        split(s + t, separator) == split(s, separator).drop_last().push(
            split(s, separator).last() + t,
        ),
    decreases t.len(),
{
    lemma_split_nonempty(s, separator);
    let pieces = split(s, separator);
    if t.len() == 0 {
        assert(s + t =~= s);
        assert(pieces.last() + t =~= pieces.last());
        assert(pieces.drop_last().push(pieces.last()) =~= pieces);
    } else {
        assert(t.contains(t.last()));
        assert forall|c: char| t.drop_last().contains(c) implies t.contains(c) by {
            let i = choose|i: int| 0 <= i < t.drop_last().len() && t.drop_last()[i] == c;
            assert(t[i] == c);
        }
        lemma_split_append(s, t.drop_last(), separator);
        assert((s + t).drop_last() =~= s + t.drop_last());
        let before = split(s + t.drop_last(), separator);
        assert(before.drop_last() =~= pieces.drop_last());
        assert((pieces.last() + t.drop_last()).push(t.last()) =~= pieces.last() + t);
    }
}

/// A separator closes a piece and opens an empty one.
pub proof fn lemma_split_separator(s: Seq<char>, separator: char)
    ensures
        split(s.push(separator), separator) == split(s, separator).push(Seq::empty()),
{
    assert(s.push(separator).drop_last() =~= s);
}

/// The pieces of a text that follows another, which ends in the separator, follow
/// the pieces of that.
pub proof fn lemma_split_behind(head: Seq<char>, tail: Seq<char>, separator: char)
    requires
        head.len() == 0 || head.last() == separator,
    ensures
        split(head + tail, separator) == split(head, separator).drop_last() + split(
            tail,
            separator,
        ),
    decreases tail.len(),
{
    let front = split(head, separator).drop_last();
    lemma_split_nonempty(head, separator);
    if tail.len() == 0 {
        assert(head + tail =~= head);
        assert(split(head, separator).last() =~= Seq::<char>::empty());
        assert(front + split(tail, separator) =~= split(head, separator));
    } else {
        let shorter = tail.drop_last();
        lemma_split_behind(head, shorter, separator);
        lemma_split_nonempty(shorter, separator);
        assert((head + tail).drop_last() =~= head + shorter);
        assert((head + tail).last() == tail.last());
        let before = split(shorter, separator);
        assert((front + before).drop_last() =~= front + before.drop_last());
        assert(split(head + tail, separator) =~= front + split(tail, separator));
    }
}

/// Splitting undoes joining pieces that do not hold the separator.
pub proof fn lemma_split_join(pieces: Seq<Seq<char>>, separator: char)
    requires
        pieces.len() > 0,
        forall|i: int| 0 <= i < pieces.len() ==> !(#[trigger] pieces[i]).contains(separator),
    ensures
        split(join(pieces, separator), separator) == pieces,
    decreases pieces.len(),
{
    let empty = Seq::<char>::empty();
    if pieces.len() == 1 {
        lemma_split_append(empty, pieces[0], separator);
        assert(empty + pieces[0] =~= pieces[0]);
        assert(split(empty, separator).drop_last().push(empty + pieces[0]) =~= pieces);
    } else {
        let front = pieces.drop_last();
        lemma_split_join(front, separator);
        let head = join(front, separator);
        lemma_split_separator(head, separator);
        lemma_split_append(head.push(separator), pieces.last(), separator);
        assert(front.push(empty).drop_last() =~= front);
        assert(empty + pieces.last() =~= pieces.last());
        assert(front.push(pieces.last()) =~= pieces);
    }
}

/// No piece holds the separator.
pub proof fn lemma_pieces_free_of_separator(s: Seq<char>, separator: char)
    ensures
        forall|i: int|
            0 <= i < split(s, separator).len() ==> !(#[trigger] split(
                s,
                separator,
            )[i]).contains(separator),
    decreases s.len(),
{
    if s.len() > 0 {
        lemma_split_nonempty(s.drop_last(), separator);
        lemma_pieces_free_of_separator(s.drop_last(), separator);
        let before = split(s.drop_last(), separator);
        if s.last() != separator {
            let last = before.last().push(s.last());
            assert(!last.contains(separator)) by {
                if last.contains(separator) {
                    let i = choose|i: int| 0 <= i < last.len() && last[i] == separator;
                    assert(before.last()[i] == separator);
                }
            }
        }
    }
}

/// Replaces each occurrence of `pattern` in `text` by `with`.
pub fn replace_text(text: &str, pattern: &str, with: &str) -> (out: String)
    ensures
        out@ == replace(text@, pattern@, with@),
{
    let chars = chars_of(text);
    let wanted = chars_of(pattern);
    if wanted.len() == 0 {
        return text.to_owned();
    }
    let mut out = String::new();
    let mut i: usize = 0;
    assert(text@.skip(0) =~= text@);
    while i < chars.len()
        invariant
            i <= chars@.len(),
            chars@ == text@,
            wanted@ == pattern@,
            wanted@.len() > 0,
            out@ + replace(text@.skip(i as int), pattern@, with@) == replace(
                text@,
                pattern@,
                with@,
            ),
        decreases chars@.len() - i,
    {
        let ghost rest = text@.skip(i as int);
        let ghost built = out@;
        if matches_at(&chars, i, &wanted) {
            out.append(with);
            proof {
                let tail = replace(rest.skip(pattern@.len() as int), pattern@, with@);
                assert(rest.skip(pattern@.len() as int) =~= text@.skip(i + wanted@.len()));
                assert(built + (with@ + tail) =~= (built + with@) + tail);
            }
            i += wanted.len();
        } else {
            out.push(chars[i]);
            proof {
                let tail = replace(rest.skip(1), pattern@, with@);
                assert(rest.skip(1) =~= text@.skip(i + 1));
                assert(built + (seq![rest[0]] + tail) =~= built.push(rest[0]) + tail);
            }
            i += 1;
        }
    }
    assert(out@ + Seq::<char>::empty() =~= out@);
    out
}

/// Whether `c` is white space.
pub fn white_space(c: char) -> (out: bool)
    ensures
        out == is_white_space(c),
{
    let n: u32 = c as u32;
    (0x09 <= n && n <= 0x0d) || n == 0x20 || n == 0x85 || n == 0xa0 || n == 0x1680 || (0x2000 <= n
        && n <= 0x200a) || n == 0x2028 || n == 0x2029 || n == 0x202f || n == 0x205f || n == 0x3000
}

/// `text` without the white space at either end.
pub fn trim_text(text: &str) -> (out: String)
    ensures
        out@ == trim(text@),
{
    let chars = chars_of(text);
    let mut from: usize = 0;
    assert(text@.skip(0) =~= text@);
    while from < chars.len() && white_space(chars[from])
        invariant
            from <= chars@.len(),
            chars@ == text@,
            trim_start(text@.skip(from as int)) == trim_start(text@),
        decreases chars@.len() - from,
    {
        assert(text@.skip(from as int).skip(1) =~= text@.skip(from + 1));
        from += 1;
    }
    let mut to: usize = chars.len();
    assert(text@.subrange(from as int, to as int) =~= text@.skip(from as int));
    while from < to && white_space(chars[to - 1])
        invariant
            from <= to <= chars@.len(),
            chars@ == text@,
            trim_end(text@.subrange(from as int, to as int)) == trim(text@),
        decreases to - from,
    {
        assert(text@.subrange(from as int, to as int).drop_last() =~= text@.subrange(
            from as int,
            to - 1,
        ));
        to -= 1;
    }
    text_of(&chars, from, to)
}

/// `text` with spaces behind it, to be at least `width` characters long.
pub fn pad_text(text: &str, width: usize) -> (out: String)
    ensures
        out@ == padded(text@, width as nat),
{
    let mut out = text.to_owned();
    let mut length: usize = text.unicode_len();
    assert(out@ =~= text@ + Seq::new(0, |i: int| ' '));
    while length < width
        invariant
            text@.len() <= length,
            length <= width || length == text@.len(),
            out@ == text@ + Seq::new((length - text@.len()) as nat, |i: int| ' '),
        decreases width - length,
    {
        let ghost before = out@;
        out.push(' ');
        assert(before.push(' ') =~= text@ + Seq::new(
            (length + 1 - text@.len()) as nat,
            |i: int| ' ',
        ));
        length += 1;
    }
    out
}

/// A copy of a list of strings.
pub fn duplicate_texts(strings: &Vec<String>) -> (out: Vec<String>)
    ensures
        texts(out@) == texts(strings@),
{
    let mut out: Vec<String> = Vec::new();
    let mut i: usize = 0;
    while i < strings.len()
        invariant
            i <= strings.len(),
            texts(out@) == texts(strings@).take(i as int),
        decreases strings.len() - i,
    {
        let ghost before = texts(out@);
        out.push(strings[i].clone());
        assert(texts(out@) =~= before.push(strings@[i as int]@));
        assert(texts(strings@).take(i + 1) =~= before.push(strings@[i as int]@));
        i += 1;
    }
    assert(texts(strings@).take(i as int) =~= texts(strings@));
    out
}

/// The number that a text of decimal digits stands for: each digit weighs ten times
/// what the next one weighs.
pub open spec fn decimal_value(s: Seq<char>) -> int
    decreases s.len(),
{
    if s.len() == 0 {
        0
    } else {
        10 * decimal_value(s.drop_last()) + (s.last() as u32 - '0' as u32)
    }
}

/// A number that is written down can be read back: the text consists of digits, does
/// not begin with a superfluous zero, and its digits add up to the number.
pub proof fn law_decimal_reads_back(n: nat)
    ensures
        decimal_value(decimal(n)) == n,
        decimal(n).len() > 0,
        forall|i: int| 0 <= i < decimal(n).len() ==> '0' <= #[trigger] decimal(n)[i] <= '9',
        decimal(n).len() > 1 ==> decimal(n)[0] != '0',
        decimal(n)[0] == '0' ==> n == 0,
    decreases n,
{
    reveal_with_fuel(decimal_value, 2);
    if n >= 10 {
        law_decimal_reads_back(n / 10);
        let front = decimal(n / 10);
        assert(decimal(n).drop_last() =~= front);
        assert(decimal(n)[0] == front[0]);
    } else {
        assert(decimal(n).drop_last() =~= Seq::<char>::empty());
    }
}

/// Only the ASCII letters have a case: small letters lie 32 behind their capitals, and
/// every other character is both.
pub proof fn law_case_is_ascii(s: Seq<char>)
    ensures
        lower(s).len() == s.len(),
        upper(s).len() == s.len(),
        forall|i: int|
            0 <= i < s.len() ==> (#[trigger] lower(s)[i]) as u32 == s[i] as u32 + (if 65
                <= s[i] as u32 <= 90 {
                32int
            } else {
                0
            }),
        forall|i: int|
            0 <= i < s.len() ==> (#[trigger] upper(s)[i]) as u32 == s[i] as u32 - (if 97
                <= s[i] as u32 <= 122 {
                32int
            } else {
                0
            }),
{
}

/// A text ends in another exactly where something in front of that gives the whole,
/// and starts with it exactly where something behind does.
pub proof fn law_endings_and_beginnings(s: Seq<char>, part: Seq<char>)
    ensures
        ends_with(s, part) <==> exists|front: Seq<char>| s == #[trigger] (front + part),
        starts_with(s, part) <==> exists|rest: Seq<char>| s == #[trigger] (part + rest),
{
    if ends_with(s, part) {
        let front = s.take(s.len() - part.len());
        assert(s =~= front + part);
    }
    if exists|front: Seq<char>| s == #[trigger] (front + part) {
        let front = choose|front: Seq<char>| s == #[trigger] (front + part);
        assert(s.skip(s.len() - part.len()) =~= part);
    }
    if starts_with(s, part) {
        let rest = s.skip(part.len() as int);
        assert(s =~= part + rest);
    }
    if exists|rest: Seq<char>| s == #[trigger] (part + rest) {
        let rest = choose|rest: Seq<char>| s == #[trigger] (part + rest);
        assert(s.take(part.len() as int) =~= part);
    }
}

/// A text without either character comes whole before the first of them, whatever
/// follows it from there on.
pub proof fn law_head_is_all_before(head: Seq<char>, rest: Seq<char>, a: char, b: char)
    requires
        !head.contains(a),
        !head.contains(b),
        rest.len() == 0 || rest[0] == a || rest[0] == b,
    ensures
        before_either(head + rest, a, b) == head,
{
    let s = head + rest;
    assert forall|j: int| 0 <= j < head.len() implies s[j] != a && s[j] != b by {
        assert(head.contains(head[j]));
    }
    if rest.len() > 0 {
        assert(s[head.len() as int] == rest[0]);
    }
    lemma_before_either_is_prefix(s, a, b, head.len() as int);
    assert(s.take(head.len() as int) =~= head);
}

/// Splitting a text cuts it at each separator and nowhere else: what comes before the
/// first one is the first piece, and the rest is split alike.
pub proof fn law_split_cuts_at_separators(piece: Seq<char>, rest: Seq<char>, separator: char)
    requires
        !piece.contains(separator),
    ensures
        split(piece, separator) == seq![piece],
        split(piece + seq![separator] + rest, separator) == seq![piece] + split(rest, separator),
{
    let empty = Seq::<char>::empty();
    lemma_split_append(empty, piece, separator);
    assert(empty + piece =~= piece);
    assert(split(piece, separator) =~= seq![piece]);
    let head = piece.push(separator);
    lemma_split_separator(piece, separator);
    lemma_split_behind(head, rest, separator);
    assert(head + rest =~= piece + seq![separator] + rest);
    assert(split(head, separator).drop_last() =~= seq![piece]);
}

/// Joining puts a separator between neighbours and nowhere else: one piece is itself,
/// and pieces in front of others are joined on their own.
pub proof fn law_join_separates(pieces: Seq<Seq<char>>, more: Seq<Seq<char>>, separator: char)
    requires
        pieces.len() > 0,
        more.len() > 0,
    ensures
        join(Seq::empty(), separator) == Seq::<char>::empty(),
        pieces.len() == 1 ==> join(pieces, separator) == pieces[0],
        join(pieces + more, separator) == join(pieces, separator) + seq![separator] + join(
            more,
            separator,
        ),
    decreases more.len(),
{
    let whole = pieces + more;
    assert(whole.drop_last() =~= pieces + more.drop_last());
    assert(whole.last() == more.last());
    if more.len() == 1 {
        assert(whole.drop_last() =~= pieces);
        assert(join(whole, separator) =~= join(pieces, separator) + seq![separator] + more[0]);
    } else {
        law_join_separates(pieces, more.drop_last(), separator);
        assert(join(whole, separator) =~= join(pieces, separator) + seq![separator] + join(
            more,
            separator,
        ));
    }
}

/// Splitting loses nothing: the pieces, joined again, are the text.
pub proof fn law_join_undoes_split(s: Seq<char>, separator: char)
    ensures
        join(split(s, separator), separator) == s,
    decreases s.len(),
{
    if s.len() > 0 {
        law_join_undoes_split(s.drop_last(), separator);
        lemma_split_nonempty(s.drop_last(), separator);
        let before = split(s.drop_last(), separator);
        let pieces = split(s, separator);
        if s.last() == separator {
            assert(pieces.drop_last() =~= before);
            assert(join(pieces, separator) =~= s);
        } else {
            assert(pieces.drop_last() =~= before.drop_last());
            assert(join(pieces, separator) =~= join(before, separator).push(s.last()));
            assert(s.drop_last().push(s.last()) =~= s);
        }
    }
}

/// Whether `pattern` stands in `s` at position `at`.
pub open spec fn occurs_at(s: Seq<char>, pattern: Seq<char>, at: int) -> bool {
    &&& 0 <= at
    &&& at + pattern.len() <= s.len()
    &&& forall|i: int| 0 <= i < pattern.len() ==> s[at + i] == #[trigger] pattern[i]
}

/// Replacing changes the occurrences of a pattern and nothing else: up to the first
/// occurrence the text stays, that occurrence becomes the new text, and what follows is
/// treated alike. A text without an occurrence stays as it is.
pub proof fn law_replace_changes_occurrences(
    s: Seq<char>,
    pattern: Seq<char>,
    with: Seq<char>,
    at: int,
)
    requires
        pattern.len() > 0,
        0 <= at <= s.len(),
        forall|i: int| 0 <= i < at ==> !#[trigger] occurs_at(s, pattern, i),
    ensures
        at == s.len() ==> replace(s, pattern, with) == s,
        occurs_at(s, pattern, at) ==> replace(s, pattern, with) == s.take(at) + with + replace(
            s.skip(at + pattern.len()),
            pattern,
            with,
        ),
    decreases at,
{
    if at > 0 {
        let rest = s.skip(1);
        assert(!occurs_at(s, pattern, 0));
        if starts_with(s, pattern) {
            assert forall|i: int| 0 <= i < pattern.len() implies s[0 + i] == #[trigger] pattern[i] by {
                assert(s.take(pattern.len() as int)[i] == s[i]);
            }
        }
        assert forall|i: int| 0 <= i < at - 1 implies !#[trigger] occurs_at(rest, pattern, i) by {
            assert(!occurs_at(s, pattern, i + 1));
            if occurs_at(rest, pattern, i) {
                assert forall|k: int| 0 <= k < pattern.len() implies s[i + 1 + k]
                    == #[trigger] pattern[k] by {
                    assert(rest[i + k] == pattern[k]);
                }
            }
        }
        law_replace_changes_occurrences(rest, pattern, with, at - 1);
        if at == s.len() {
            assert(seq![s[0]] + rest =~= s);
        }
        if occurs_at(s, pattern, at) {
            assert forall|k: int| 0 <= k < pattern.len() implies rest[at - 1 + k]
                == #[trigger] pattern[k] by {
                assert(s[at + k] == pattern[k]);
            }
            assert(rest.skip(at - 1 + pattern.len()) =~= s.skip(at + pattern.len()));
            let tail = replace(s.skip(at + pattern.len()), pattern, with);
            assert(seq![s[0]] + (rest.take(at - 1) + with + tail) =~= s.take(at) + with + tail);
        }
    } else {
        if occurs_at(s, pattern, 0) {
            assert(s.take(pattern.len() as int) =~= pattern) by {
                assert forall|i: int| 0 <= i < pattern.len() implies s[i] == #[trigger] pattern[i] by {
                    assert(s[0 + i] == pattern[i]);
                }
            }
            let tail = replace(s.skip(pattern.len() as int), pattern, with);
            assert(s.take(0) + with + tail =~= with + tail);
        }
    }
}

/// White space is the 25 code points that Unicode lists.
pub proof fn law_white_space_is_listed(c: char)
    ensures
        is_white_space(c) <==> seq![
            0x09u32, 0x0a, 0x0b, 0x0c, 0x0d, 0x20, 0x85, 0xa0, 0x1680, 0x2000, 0x2001, 0x2002,
            0x2003, 0x2004, 0x2005, 0x2006, 0x2007, 0x2008, 0x2009, 0x200a, 0x2028, 0x2029,
            0x202f, 0x205f, 0x3000,
        ].contains(c as u32),
{
    let listed = seq![
        0x09u32, 0x0a, 0x0b, 0x0c, 0x0d, 0x20, 0x85, 0xa0, 0x1680, 0x2000, 0x2001, 0x2002,
        0x2003, 0x2004, 0x2005, 0x2006, 0x2007, 0x2008, 0x2009, 0x200a, 0x2028, 0x2029,
        0x202f, 0x205f, 0x3000,
    ];
    let n = c as u32;
    assert(listed[0] == 0x09 && listed[1] == 0x0a && listed[2] == 0x0b && listed[3] == 0x0c
        && listed[4] == 0x0d && listed[5] == 0x20 && listed[6] == 0x85 && listed[7] == 0xa0
        && listed[8] == 0x1680);
    if 0x2000 <= n <= 0x200a {
        assert(listed[9 + (n - 0x2000)] == n);
    }
    assert(listed[20] == 0x2028 && listed[21] == 0x2029 && listed[22] == 0x202f && listed[23]
        == 0x205f && listed[24] == 0x3000);
}

proof fn lemma_trim_start(lead: Seq<char>, s: Seq<char>)
    requires
        forall|i: int| 0 <= i < lead.len() ==> is_white_space(#[trigger] lead[i]),
        s.len() == 0 || !is_white_space(s[0]),
    ensures
        trim_start(lead + s) == s,
    decreases lead.len(),
{
    if lead.len() > 0 {
        assert((lead + s)[0] == lead[0]);
        assert((lead + s).skip(1) =~= lead.skip(1) + s);
        lemma_trim_start(lead.skip(1), s);
    } else {
        assert(lead + s =~= s);
    }
}

proof fn lemma_trim_end(s: Seq<char>, tail: Seq<char>)
    requires
        forall|i: int| 0 <= i < tail.len() ==> is_white_space(#[trigger] tail[i]),
        s.len() == 0 || !is_white_space(s.last()),
    ensures
        trim_end(s + tail) == s,
    decreases tail.len(),
{
    if tail.len() > 0 {
        assert((s + tail).last() == tail.last());
        assert((s + tail).drop_last() =~= s + tail.drop_last());
        lemma_trim_end(s, tail.drop_last());
    } else {
        assert(s + tail =~= s);
    }
}

/// Trimming takes the white space at both ends and nothing else: a text that has none
/// at its ends is what remains, however much surrounds it.
pub proof fn law_trim_takes_the_ends(lead: Seq<char>, s: Seq<char>, tail: Seq<char>)
    requires
        forall|i: int| 0 <= i < lead.len() ==> is_white_space(#[trigger] lead[i]),
        forall|i: int| 0 <= i < tail.len() ==> is_white_space(#[trigger] tail[i]),
        s.len() > 0 ==> !is_white_space(s[0]) && !is_white_space(s.last()),
    ensures
        trim(lead + s + tail) == s,
{
    if s.len() > 0 {
        assert((s + tail)[0] == s[0]);
        lemma_trim_start(lead, s + tail);
        assert(lead + s + tail =~= lead + (s + tail));
        lemma_trim_end(s, tail);
    } else {
        let blank = lead + tail;
        assert(lead + s + tail =~= blank + s);
        lemma_trim_start(blank, s);
    }
}

/// Padding keeps the text, adds nothing but spaces, and fills it up to the width where
/// it is shorter.
pub proof fn law_padding_fills_up(s: Seq<char>, width: nat)
    ensures
        padded(s, width).take(s.len() as int) == s,
        forall|i: int|
            s.len() <= i < padded(s, width).len() ==> #[trigger] padded(s, width)[i] == ' ',
        s.len() >= width ==> padded(s, width) == s,
        s.len() < width ==> padded(s, width).len() == width,
{
    assert(padded(s, width).take(s.len() as int) =~= s);
    if s.len() >= width {
        assert(padded(s, width) =~= s);
    }
}

/// A text that is made small ends in `.json` exactly when its last five characters are
/// those of `.json`, each letter small or capital.
pub proof fn law_json_ending_in_any_case(s: Seq<char>)
    ensures
        ends_with(lower(s), ".json"@) <==> {
            &&& s.len() >= 5
            &&& s[s.len() - 5] == '.'
            &&& s[s.len() - 4] == 'j' || s[s.len() - 4] == 'J'
            &&& s[s.len() - 3] == 's' || s[s.len() - 3] == 'S'
            &&& s[s.len() - 2] == 'o' || s[s.len() - 2] == 'O'
            &&& s[s.len() - 1] == 'n' || s[s.len() - 1] == 'N'
        },
{
    reveal_strlit(".json");
    law_case_is_ascii(s);
    if s.len() >= 5 {
        let n = s.len() as int;
        let tail = lower(s).skip(n - 5);
        assert(tail[0] == lower(s)[n - 5]);
        assert(tail[1] == lower(s)[n - 4]);
        assert(tail[2] == lower(s)[n - 3]);
        assert(tail[3] == lower(s)[n - 2]);
        assert(tail[4] == lower(s)[n - 1]);
        if tail[0] == '.' && tail[1] == 'j' && tail[2] == 's' && tail[3] == 'o' && tail[4]
            == 'n' {
            assert(tail =~= ".json"@);
        }
    }
}

} // verus!
