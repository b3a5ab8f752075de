//! Text: white space, lines, fields and numbers.
//!
//! The kernel's status files are read with these, and labels and dates are
//! trimmed and ordered with them. Everything is stated over the characters
//! of a string.

use vstd::prelude::*;

verus! {

/// Whether a character is Unicode white space.
pub open spec fn is_white(c: char) -> bool {
    let u = c as u32;
    ||| 0x09 <= u <= 0x0D
    ||| u == 0x20
    ||| u == 0x85
    ||| u == 0xA0
    ||| u == 0x1680
    ||| 0x2000 <= u <= 0x200A
    ||| u == 0x2028
    ||| u == 0x2029
    ||| u == 0x202F
    ||| u == 0x205F
    ||| u == 0x3000
}

/// Whether a character is Unicode white space.
pub fn white(c: char) -> (r: bool)
    ensures
        r == is_white(c),
{
    let u: u32 = c as u32;
    (0x09 <= u && u <= 0x0D) || u == 0x20 || u == 0x85 || u == 0xA0 || u == 0x1680 || (0x2000 <= u
        && u <= 0x200A) || u == 0x2028 || u == 0x2029 || u == 0x202F || u == 0x205F || u == 0x3000
}

/// The code point of a character.
fn code_point(c: char) -> (u: u32)
    ensures
        u == c as int,
{
    c as u32
}

/// The characters of a string.
pub fn chars_of(s: &str) -> (chars: Vec<char>)
    ensures
        chars@ == s@,
{
    let mut chars: Vec<char> = Vec::new();
    for c in it: s.chars()
        invariant
            it.seq() == s@,
            chars@ == s@.take(it.index() as int),
    {
        chars.push(c);
        proof {
            assert(s@.take(it.index() + 1) =~= s@.take(it.index() as int).push(c));
        }
    }
    proof {
        assert(s@.take(s@.len() as int) =~= s@);
    }
    chars
}

/// Text without leading white space.
pub open spec fn trim_start(s: Seq<char>) -> Seq<char>
    decreases s.len(),
{
    if s.len() > 0 && is_white(s[0]) {
        trim_start(s.skip(1))
    } else {
        s
    }
}

/// Text without trailing white space.
pub open spec fn trim_end(s: Seq<char>) -> Seq<char>
    decreases s.len(),
{
    if s.len() > 0 && is_white(s.last()) {
        trim_end(s.drop_last())
    } else {
        s
    }
}

/// Text without leading and trailing white space.
pub open spec fn trim(s: Seq<char>) -> Seq<char> {
    trim_end(trim_start(s))
}

/// Where the text without surrounding white space stands.
pub fn trim_range(s: &Vec<char>) -> (r: (usize, usize))
    ensures
        r.0 <= r.1 <= s.len(),
        s@.subrange(r.0 as int, r.1 as int) == trim(s@),
{
    let n: usize = s.len();
    let mut from: usize = 0;
    proof {
        assert(s@.skip(0) =~= s@);
    }
    while from < n && white(s[from])
        invariant
            n == s.len(),
            from <= n,
            trim_start(s@) == trim_start(s@.skip(from as int)),
        decreases n - from,
    {
        proof {
            assert(s@.skip(from as int).skip(1) =~= s@.skip(from + 1));
        }
        from = from + 1;
    }
    let mut to: usize = n;
    proof {
        assert(trim_start(s@) == s@.skip(from as int));
        assert(s@.subrange(from as int, n as int) =~= s@.skip(from as int));
    }
    while to > from && white(s[to - 1])
        invariant
            n == s.len(),
            from <= to <= n,
            trim(s@) == trim_end(s@.subrange(from as int, to as int)),
        decreases to,
    {
        proof {
            let part = s@.subrange(from as int, to as int);
            assert(part.last() == s@[to - 1]);
            assert(part.drop_last() =~= s@.subrange(from as int, to - 1));
        }
        to = to - 1;
    }
    proof {
        let part = s@.subrange(from as int, to as int);
        if to > from {
            assert(part.last() == s@[to - 1]);
        }
        assert(trim_end(part) == part);
    }
    (from, to)
}

/// The text without leading and trailing white space.
pub fn trimmed(s: &str) -> (r: String)
    ensures
        r@ == trim(s@),
{
    let chars = chars_of(s);
    let (from, to) = trim_range(&chars);
    s.substring_char(from, to).to_owned()
}

/// What trimming leaves begins and ends with no white space, and trimming
/// it again changes nothing.
pub proof fn law_trimmed_text_has_no_white_ends(s: Seq<char>)
    ensures
        trim(s).len() > 0 ==> !is_white(trim(s)[0]) && !is_white(trim(s).last()),
        trim(trim(s)) == trim(s),
{
    lemma_trim_start(s);
    lemma_trim_end(trim_start(s));
    let t = trim(s);
    if t.len() > 0 {
        assert(trim_start(t) == t);
        assert(trim_end(t) == t);
    }
}

proof fn lemma_trim_start(s: Seq<char>)
    ensures
        trim_start(s).len() > 0 ==> !is_white(trim_start(s)[0]),
    decreases s.len(),
{
    if s.len() > 0 && is_white(s[0]) {
        lemma_trim_start(s.skip(1));
    }
}

proof fn lemma_trim_end(s: Seq<char>)
    ensures
        trim_end(s).len() > 0 ==> trim_end(s)[0] == s[0] && !is_white(trim_end(s).last()),
        trim_end(s).len() <= s.len(),
    decreases s.len(),
{
    if s.len() > 0 && is_white(s.last()) {
        lemma_trim_end(s.drop_last());
    }
}

/// Whether a text is white space throughout, or empty.
pub open spec fn is_blank(s: Seq<char>) -> bool {
    forall|i: int| 0 <= i < s.len() ==> is_white(#[trigger] s[i])
}

/// Trimming takes away exactly the white space around a text that has none
/// at its own ends.
pub proof fn law_trimming_takes_the_white_space_around(
    before: Seq<char>,
    s: Seq<char>,
    after: Seq<char>,
)
    requires
        is_blank(before),
        is_blank(after),
        s.len() > 0,
        !is_white(s[0]),
        !is_white(s.last()),
    ensures
        trim(before + s + after) == s,
{
    assert(before + s + after =~= before + (s + after));
    lemma_trim_start_of(before, s + after);
    lemma_trim_end_of(s, after);
}

/// Nothing is left of white space.
pub proof fn law_blank_text_trims_to_nothing(s: Seq<char>)
    requires
        is_blank(s),
    ensures
        trim(s).len() == 0,
    decreases s.len(),
{
    if s.len() > 0 {
        law_blank_text_trims_to_nothing(s.skip(1));
        assert(trim_start(s) == trim_start(s.skip(1)));
    }
}

proof fn lemma_trim_start_of(before: Seq<char>, s: Seq<char>)
    requires
        is_blank(before),
        s.len() > 0,
        !is_white(s[0]),
    ensures
        trim_start(before + s) == s,
    decreases before.len(),
{
    let all = before + s;
    if before.len() == 0 {
        assert(all =~= s);
    } else {
        assert(all[0] == before[0]);
        assert(all.skip(1) =~= before.skip(1) + s);
        lemma_trim_start_of(before.skip(1), s);
    }
}

proof fn lemma_trim_end_of(s: Seq<char>, after: Seq<char>)
    requires
        is_blank(after),
        s.len() > 0,
        !is_white(s.last()),
    ensures
        trim_end(s + after) == s,
    decreases after.len(),
{
    let all = s + after;
    if after.len() == 0 {
        assert(all =~= s);
    } else {
        assert(all.last() == after.last());
        assert(all.drop_last() =~= s + after.drop_last());
        lemma_trim_end_of(s, after.drop_last());
    }
}

/// Whether one text comes before another: at the first place where they
/// differ it has the smaller character, or it ends.
pub open spec fn comes_before(a: Seq<char>, b: Seq<char>) -> bool
    decreases a.len(),
{
    if b.len() == 0 {
        false
    } else if a.len() == 0 {
        true
    } else if a[0] == b[0] {
        comes_before(a.skip(1), b.skip(1))
    } else {
        (a[0] as int) < (b[0] as int)
    }
}

/// Texts are in one order: of two different ones exactly one comes before
/// the other.
pub proof fn law_texts_are_ordered(a: Seq<char>, b: Seq<char>)
    ensures
        comes_before(a, b) <==> a != b && !comes_before(b, a),
    decreases a.len(),
{
    if a.len() > 0 && b.len() > 0 {
        if a[0] == b[0] {
            law_texts_are_ordered(a.skip(1), b.skip(1));
            assert(a =~= seq![a[0]] + a.skip(1));
            assert(b =~= seq![b[0]] + b.skip(1));
            assert(a.skip(1) == b.skip(1) ==> a == b);
        }
    } else if a.len() == 0 && b.len() == 0 {
        assert(a =~= b);
    }
}

/// A text that comes before another comes before all that follow that one.
pub proof fn law_text_order_is_transitive(a: Seq<char>, b: Seq<char>, c: Seq<char>)
    requires
        comes_before(a, b),
        comes_before(b, c),
    ensures
        comes_before(a, c),
    decreases a.len(),
{
    if a.len() > 0 && a[0] == b[0] && b[0] == c[0] {
        law_text_order_is_transitive(a.skip(1), b.skip(1), c.skip(1));
    }
}

/// Whether one text comes before another.
pub fn before(a: &str, b: &str) -> (r: bool)
    ensures
        r == comes_before(a@, b@),
{
    let x = chars_of(a);
    let y = chars_of(b);
    let mut i: usize = 0;
    proof {
        assert(x@.skip(0) =~= x@);
        assert(y@.skip(0) =~= y@);
    }
    while i < x.len() && i < y.len() && x[i] == y[i]
        invariant
            i <= x.len(),
            i <= y.len(),
            comes_before(x@, y@) == comes_before(x@.skip(i as int), y@.skip(i as int)),
        decreases x.len() - i,
    {
        proof {
            assert(x@.skip(i as int).skip(1) =~= x@.skip(i + 1));
            assert(y@.skip(i as int).skip(1) =~= y@.skip(i + 1));
        }
        i = i + 1;
    }
    if i >= y.len() {
        false
    } else if i >= x.len() {
        true
    } else {
        code_point(x[i]) < code_point(y[i])
    }
}

/// The texts that character vectors hold.
pub open spec fn texts(parts: Seq<Vec<char>>) -> Seq<Seq<char>> {
    parts.map_values(|part: Vec<char>| part@)
}

/// The place of the first `c`, or the length where there is none.
pub open spec fn index_of(s: Seq<char>, c: char) -> int
    decreases s.len(),
{
    if s.len() == 0 || s[0] == c {
        0
    } else {
        1 + index_of(s.skip(1), c)
    }
}

/// The place of the first `c` is in the text or at its end, and no `c` stands
/// in front of it.
pub proof fn lemma_index_of(s: Seq<char>, c: char)
    ensures
        0 <= index_of(s, c) <= s.len(),
        index_of(s, c) < s.len() ==> s[index_of(s, c)] == c,
        forall|i: int| 0 <= i < index_of(s, c) ==> s[i] != c,
    decreases s.len(),
{
    if s.len() > 0 && s[0] != c {
        let t = s.skip(1);
        lemma_index_of(t, c);
        assert forall|i: int| 0 <= i < index_of(s, c) implies s[i] != c by {
            if i > 0 {
                assert(s[i] == t[i - 1]);
            }
        }
    }
}

proof fn lemma_index_of_is_first(s: Seq<char>, c: char, n: int)
    requires
        0 <= n <= s.len(),
        n < s.len() ==> s[n] == c,
        forall|i: int| 0 <= i < n ==> s[i] != c,
    ensures
        index_of(s, c) == n,
{
    lemma_index_of(s, c);
    let m = index_of(s, c);
    if m < n {
        assert(s[m] != c);
    } else if n < m {
        assert(s[n] != c);
    }
}

/// The place of the first `c` in `s` at or after `from`, or the length.
fn find(s: &Vec<char>, from: usize, c: char) -> (at: usize)
    requires
        from <= s.len(),
    ensures
        from <= at <= s.len(),
        at == from + index_of(s@.skip(from as int), c),
{
    let mut at: usize = from;
    while at < s.len() && s[at] != c
        invariant
            from <= at <= s.len(),
            forall|i: int| from <= i < at ==> s@[i] != c,
        decreases s.len() - at,
    {
        at = at + 1;
    }
    proof {
        let rest = s@.skip(from as int);
        assert forall|i: int| 0 <= i < at - from implies rest[i] != c by {
            assert(rest[i] == s@[from + i]);
        }
        lemma_index_of_is_first(rest, c, at - from);
    }
    at
}

/// The characters from `from` up to `to`.
fn slice(s: &Vec<char>, from: usize, to: usize) -> (part: Vec<char>)
    requires
        from <= to <= s.len(),
    ensures
        part@ == s@.subrange(from as int, to as int),
{
    let mut part: Vec<char> = Vec::new();
    let mut i: usize = from;
    while i < to
        invariant
            from <= i <= to <= s.len(),
            part@ == s@.subrange(from as int, i as int),
        decreases to - i,
    {
        part.push(s[i]);
        proof {
            assert(s@.subrange(from as int, i + 1) =~= s@.subrange(from as int, i as int).push(
                s@[i as int],
            ));
        }
        i = i + 1;
    }
    part
}

/// The first line of a text that is not empty: what stands in front of the
/// first line feed, without a carriage return right before that line feed.
pub open spec fn first_line(s: Seq<char>) -> Seq<char> {
    let n = index_of(s, '\n');
    if 0 < n < s.len() && s[n - 1] == '\r' {
        s.take(n - 1)
    } else {
        s.take(n)
    }
}

/// The lines of a text.
pub open spec fn lines(s: Seq<char>) -> Seq<Seq<char>>
    decreases s.len(),
{
    if s.len() == 0 {
        Seq::empty()
    } else {
        proof {
            lemma_index_of(s, '\n');
        }
        let n = index_of(s, '\n');
        if n >= s.len() {
            seq![first_line(s)]
        } else {
            seq![first_line(s)] + lines(s.skip(n + 1))
        }
    }
}

/// The lines of a text.
pub fn lines_of(s: &Vec<char>) -> (parts: Vec<Vec<char>>)
    ensures
        texts(parts@) == lines(s@),
{
    let mut parts: Vec<Vec<char>> = Vec::new();
    let mut from: usize = 0;
    proof {
        assert(s@.skip(0) =~= s@);
        assert(texts(parts@) + lines(s@) =~= lines(s@));
    }
    while from < s.len()
        invariant
            from <= s.len(),
            texts(parts@) + lines(s@.skip(from as int)) == lines(s@),
        decreases s.len() - from,
    {
        let ghost rest = s@.skip(from as int);
        let ghost old_parts = parts@;
        let end: usize = find(s, from, '\n');
        let stop: usize = if end < s.len() && end > from && s[end - 1] == '\r' {
            end - 1
        } else {
            end
        };
        parts.push(slice(s, from, stop));
        proof {
            lemma_index_of(rest, '\n');
            let n = end - from;
            assert(s@.subrange(from as int, stop as int) =~= first_line(rest));
            assert(texts(parts@) =~= texts(old_parts).push(first_line(rest)));
            if end < s.len() {
                assert(rest.skip(n + 1) =~= s@.skip(end + 1));
                assert(texts(parts@) + lines(s@.skip(end + 1)) =~= texts(old_parts) + lines(rest));
            } else {
                assert(s@.skip(end as int) =~= Seq::empty());
                assert(texts(parts@) + lines(s@.skip(end as int)) =~= texts(old_parts) + lines(
                    rest,
                ));
            }
        }
        from = if end < s.len() {
            end + 1
        } else {
            end
        };
    }
    proof {
        assert(s@.skip(from as int) =~= Seq::empty());
        assert(texts(parts@) + lines(s@.skip(from as int)) =~= texts(parts@));
    }
    parts
}

/// The length of the word at the start of a text.
pub open spec fn word_len(s: Seq<char>) -> int
    decreases s.len(),
{
    if s.len() == 0 || is_white(s[0]) {
        0
    } else {
        1 + word_len(s.skip(1))
    }
}

/// The word at the start of a text is no longer than the text.
pub proof fn lemma_word_len(s: Seq<char>)
    ensures
        0 <= word_len(s) <= s.len(),
    decreases s.len(),
{
    if s.len() > 0 && !is_white(s[0]) {
        lemma_word_len(s.skip(1));
    }
}

/// The fields of a text: the words that white space separates.
pub open spec fn fields(s: Seq<char>) -> Seq<Seq<char>>
    decreases s.len(),
{
    if s.len() == 0 {
        Seq::empty()
    } else if is_white(s[0]) {
        fields(s.skip(1))
    } else {
        proof {
            lemma_word_len(s);
            lemma_word_len(s.skip(1));
        }
        seq![s.take(word_len(s))] + fields(s.skip(word_len(s)))
    }
}

/// The fields of a text.
pub fn fields_of(s: &Vec<char>) -> (parts: Vec<Vec<char>>)
    ensures
        texts(parts@) == fields(s@),
{
    let mut parts: Vec<Vec<char>> = Vec::new();
    let mut from: usize = 0;
    proof {
        assert(s@.skip(0) =~= s@);
        assert(texts(parts@) + fields(s@) =~= fields(s@));
    }
    while from < s.len()
        invariant
            from <= s.len(),
            texts(parts@) + fields(s@.skip(from as int)) == fields(s@),
        decreases s.len() - from,
    {
        let ghost rest = s@.skip(from as int);
        if white(s[from]) {
            proof {
                assert(rest.skip(1) =~= s@.skip(from + 1));
            }
            from = from + 1;
        } else {
            let ghost old_parts = parts@;
            let mut to: usize = from;
            while to < s.len() && !white(s[to])
                invariant
                    from <= to <= s.len(),
                    rest == s@.skip(from as int),
                    word_len(rest) == to - from + word_len(s@.skip(to as int)),
                    to == from ==> from < s.len() && !is_white(s@[from as int]),
                decreases s.len() - to,
            {
                proof {
                    assert(s@.skip(to as int).skip(1) =~= s@.skip(to + 1));
                }
                to = to + 1;
            }
            parts.push(slice(s, from, to));
            proof {
                let n = to - from;
                assert(word_len(rest) == n);
                assert(rest.take(n) =~= s@.subrange(from as int, to as int));
                assert(rest.skip(n) =~= s@.skip(to as int));
                assert(texts(parts@) =~= texts(old_parts).push(rest.take(n)));
                assert(texts(parts@) + fields(s@.skip(to as int)) =~= texts(old_parts) + fields(
                    rest,
                ));
            }
            from = to;
        }
    }
    proof {
        assert(s@.skip(from as int) =~= Seq::empty());
        assert(texts(parts@) + fields(s@.skip(from as int)) =~= texts(parts@));
    }
    parts
}

/// What stands in front of the first `c` and what follows it, where there is
/// one.
pub open spec fn split_once(s: Seq<char>, c: char) -> Option<(Seq<char>, Seq<char>)> {
    let n = index_of(s, c);
    if n < s.len() {
        Some((s.take(n), s.skip(n + 1)))
    } else {
        None
    }
}

/// What stands in front of the first `c` and what follows it, where there is
/// one.
pub fn split_at(s: &Vec<char>, c: char) -> (r: Option<(Vec<char>, Vec<char>)>)
    ensures
        match r {
            Some(parts) => split_once(s@, c) == Some((parts.0@, parts.1@)),
            None => split_once(s@, c) is None,
        },
{
    let n: usize = find(s, 0, c);
    proof {
        assert(s@.skip(0) =~= s@);
    }
    if n < s.len() {
        let key = slice(s, 0, n);
        let rest = slice(s, n + 1, s.len());
        proof {
            assert(key@ =~= s@.take(n as int));
            assert(rest@ =~= s@.skip(n + 1));
        }
        Some((key, rest))
    } else {
        None
    }
}

/// Whether the texts are equal.
pub fn equals(s: &Vec<char>, word: &str) -> (r: bool)
    ensures
        r == (s@ == word@),
{
    let other = chars_of(word);
    if s.len() != other.len() {
        return false;
    }
    let mut i: usize = 0;
    while i < s.len()
        invariant
            i <= s.len(),
            s.len() == other.len(),
            other@ == word@,
            forall|k: int| 0 <= k < i ==> s@[k] == other@[k],
        decreases s.len() - i,
    {
        if s[i] != other[i] {
            proof {
                assert(s@[i as int] != word@[i as int]);
            }
            return false;
        }
        i = i + 1;
    }
    proof {
        assert(s@ =~= word@);
    }
    true
}

/// `String::push` appends the given character to the end of the string.
pub assume_specification[ String::push ](s: &mut String, ch: char)
    ensures
        final(s)@ == old(s)@.push(ch),
;

/// The text as a string.
pub fn string_of(s: &Vec<char>) -> (r: String)
    ensures
        r@ == s@,
{
    let mut r = String::new();
    proof {
        assert(s@.take(0) =~= Seq::empty());
    }
    let mut i: usize = 0;
    while i < s.len()
        invariant
            i <= s.len(),
            r@ == s@.take(i as int),
        decreases s.len() - i,
    {
        r.push(s[i]);
        proof {
            assert(s@.take(i + 1) =~= s@.take(i as int).push(s@[i as int]));
        }
        i = i + 1;
    }
    proof {
        assert(s@.take(i as int) =~= s@);
    }
    r
}

/// The value of a digit in a radix of at most 16.
pub open spec fn digit(c: char, radix: int) -> Option<int> {
    let u = c as int;
    let d = if 0x30 <= u <= 0x39 {
        u - 0x30
    } else if 0x61 <= u <= 0x66 {
        u - 0x61 + 10
    } else if 0x41 <= u <= 0x46 {
        u - 0x41 + 10
    } else {
        16
    };
    if d < radix {
        Some(d)
    } else {
        None
    }
}

/// The number that a row of digits stands for.
pub open spec fn digits(s: Seq<char>, radix: int) -> Option<int>
    decreases s.len(),
{
    if s.len() == 0 {
        Some(0)
    } else {
        match (digits(s.drop_last(), radix), digit(s.last(), radix)) {
            (Some(high), Some(low)) => Some(high * radix + low),
            _ => None,
        }
    }
}

/// The unsigned number up to `max` that a text stands for: digits, at least
/// one, with a plus sign in front of them or none.
pub open spec fn unsigned(s: Seq<char>, radix: int, max: int) -> Option<int> {
    let body = if s.len() > 0 && s[0] == '+' {
        s.skip(1)
    } else {
        s
    };
    if body.len() == 0 {
        None
    } else {
        match digits(body, radix) {
            Some(value) if value <= max => Some(value),
            _ => None,
        }
    }
}

/// A number that a text stands for is in range.
pub proof fn lemma_unsigned(s: Seq<char>, radix: int, max: int)
    requires
        1 <= radix <= 16,
    ensures
        unsigned(s, radix, max) is Some ==> 0 <= unsigned(s, radix, max)->Some_0 <= max,
{
    let body = if s.len() > 0 && s[0] == '+' {
        s.skip(1)
    } else {
        s
    };
    if digits(body, radix) is Some {
        lemma_digits_grow(body, 0, radix);
    }
}

proof fn lemma_digits_grow(s: Seq<char>, k: int, radix: int)
    requires
        0 <= k <= s.len(),
        1 <= radix <= 16,
        digits(s, radix) is Some,
    ensures
        digits(s.take(k), radix) is Some,
        0 <= digits(s.take(k), radix)->Some_0 <= digits(s, radix)->Some_0,
    decreases s.len() - k, s.len(),
{
    if k == s.len() {
        assert(s.take(k) =~= s);
        if s.len() > 0 {
            let front = s.drop_last();
            assert(front.take(front.len() as int) =~= front);
            lemma_digits_grow(front, front.len() as int, radix);
            let high = digits(front, radix)->Some_0;
            assert(high * radix >= 0) by (nonlinear_arith)
                requires
                    high >= 0,
                    radix >= 1,
            ;
        }
    } else {
        let front = s.drop_last();
        lemma_digits_grow(front, k, radix);
        assert(front.take(k) =~= s.take(k));
        let high = digits(front, radix)->Some_0;
        assert(high * radix >= high) by (nonlinear_arith)
            requires
                high >= 0,
                radix >= 1,
        ;
    }
}

fn digit_of(c: char, radix: u32) -> (d: Option<u32>)
    requires
        1 <= radix <= 16,
    ensures
        match d {
            Some(v) => digit(c, radix as int) == Some(v as int),
            None => digit(c, radix as int) is None,
        },
{
    let u: u32 = code_point(c);
    let d: u32 = if 0x30 <= u && u <= 0x39 {
        u - 0x30
    } else if 0x61 <= u && u <= 0x66 {
        u - 0x61 + 10
    } else if 0x41 <= u && u <= 0x46 {
        u - 0x41 + 10
    } else {
        16
    };
    if d < radix {
        Some(d)
    } else {
        None
    }
}

/// The unsigned number up to `max` that a text stands for; see [`unsigned`].
pub fn parse_unsigned(s: &Vec<char>, radix: u32, max: u64) -> (r: Option<u64>)
    requires
        1 <= radix <= 16,
    ensures
        match r {
            Some(v) => unsigned(s@, radix as int, max as int) == Some(v as int),
            None => unsigned(s@, radix as int, max as int) is None,
        },
{
    let from: usize = if s.len() > 0 && s[0] == '+' {
        1
    } else {
        0
    };
    let ghost body = s@.skip(from as int);
    proof {
        if from == 0 {
            assert(body =~= s@);
        }
        assert(body.take(0) =~= Seq::empty());
    }
    if from >= s.len() {
        return None;
    }
    let mut value: u64 = 0;
    let mut i: usize = from;
    while i < s.len()
        invariant
            from <= i <= s.len(),
            from <= 1,
            1 <= radix <= 16,
            body == s@.skip(from as int),
            body.len() > 0,
            from == (if s@.len() > 0 && s@[0] == '+' { 1int } else { 0int }),
            from == 0 ==> body == s@,
            value <= max,
            digits(body.take(i - from), radix as int) == Some(value as int),
        decreases s.len() - i,
    {
        let ghost k = i - from;
        proof {
            let next = body.take(k + 1);
            assert(next.drop_last() =~= body.take(k));
            assert(next.last() == s@[i as int]);
            if digits(body, radix as int) is Some {
                lemma_digits_grow(body, k + 1, radix as int);
            }
        }
        match digit_of(s[i], radix) {
            Some(d) => {
                assert(value * radix + d < 0x1_0000_0000_0000_0000_0000) by (nonlinear_arith)
                    requires
                        value <= 0xFFFF_FFFF_FFFF_FFFF,
                        radix <= 16,
                        d < 16,
                ;
                let wide: u128 = value as u128 * radix as u128 + d as u128;
                if wide > max as u128 {
                    return None;
                }
                value = wide as u64;
            },
            None => {
                return None;
            },
        }
        i = i + 1;
    }
    proof {
        assert(body.take(i - from) =~= body);
    }
    Some(value)
}

/// Whether a text starts with a prefix.
pub open spec fn starts_with(s: Seq<char>, prefix: Seq<char>) -> bool {
    prefix.len() <= s.len() && s.take(prefix.len() as int) == prefix
}

/// The text without any repetition of a prefix in front of it.
pub open spec fn without_prefix(s: Seq<char>, prefix: Seq<char>) -> Seq<char>
    decreases s.len(),
{
    if prefix.len() > 0 && starts_with(s, prefix) {
        without_prefix(s.skip(prefix.len() as int), prefix)
    } else {
        s
    }
}

/// The text without any repetition of a prefix in front of it.
pub fn strip_prefix(s: &Vec<char>, prefix: &str) -> (r: Vec<char>)
    ensures
        r@ == without_prefix(s@, prefix@),
{
    let p = chars_of(prefix);
    let mut from: usize = 0;
    proof {
        assert(s@.skip(0) =~= s@);
    }
    while p.len() > 0 && p.len() <= s.len() - from && equals(
        &slice(s, from, from + p.len()),
        prefix,
    )
        invariant
            from <= s.len(),
            p@ == prefix@,
            without_prefix(s@, prefix@) == without_prefix(s@.skip(from as int), prefix@),
        decreases s.len() - from,
    {
        proof {
            let rest = s@.skip(from as int);
            assert(rest.take(p.len() as int) =~= s@.subrange(from as int, from + p.len()));
            assert(rest.skip(p.len() as int) =~= s@.skip(from + p.len()));
        }
        from = from + p.len();
    }
    proof {
        let rest = s@.skip(from as int);
        if p.len() > 0 && p.len() <= rest.len() {
            assert(rest.take(p.len() as int) =~= s@.subrange(from as int, from + p.len()));
        }
        assert(s@.subrange(from as int, s.len() as int) =~= rest);
    }
    slice(s, from, s.len())
}

/// White space is what Unicode says it is: the controls from the tabulator to
/// the carriage return, the blanks of all widths, and the separators of lines
/// and paragraphs; no other character is.
pub proof fn law_white_space_is_that_of_unicode(c: char)
    ensures
        is_white(c) <==> seq![
            '\t',
            '\n',
            '\u{b}',
            '\u{c}',
            '\r',
            ' ',
            '\u{85}',
            '\u{a0}',
            '\u{1680}',
            '\u{2000}',
            '\u{2001}',
            '\u{2002}',
            '\u{2003}',
            '\u{2004}',
            '\u{2005}',
            '\u{2006}',
            '\u{2007}',
            '\u{2008}',
            '\u{2009}',
            '\u{200a}',
            '\u{2028}',
            '\u{2029}',
            '\u{202f}',
            '\u{205f}',
            '\u{3000}',
        ].contains(c),
{
    let all = seq![
        '\t',
        '\n',
        '\u{b}',
        '\u{c}',
        '\r',
        ' ',
        '\u{85}',
        '\u{a0}',
        '\u{1680}',
        '\u{2000}',
        '\u{2001}',
        '\u{2002}',
        '\u{2003}',
        '\u{2004}',
        '\u{2005}',
        '\u{2006}',
        '\u{2007}',
        '\u{2008}',
        '\u{2009}',
        '\u{200a}',
        '\u{2028}',
        '\u{2029}',
        '\u{202f}',
        '\u{205f}',
        '\u{3000}',
    ];
    if is_white(c) {
        let u = c as int;
        let k = if u <= 0x0D {
            u - 0x09
        } else if u == 0x20 {
            5
        } else if u == 0x85 {
            6
        } else if u == 0xA0 {
            7
        } else if u == 0x1680 {
            8
        } else if u <= 0x200A {
            9 + u - 0x2000
        } else if u == 0x2028 {
            20
        } else if u == 0x2029 {
            21
        } else if u == 0x202F {
            22
        } else if u == 0x205F {
            23
        } else {
            24
        };
        assert(0 <= k < 25);
        assert(all[k] as int == u);
        assert(all[k] == c);
    }
}

/// The first difference decides which of two texts comes first, and a text
/// that ends there comes before one that goes on.
pub proof fn law_the_first_difference_decides(common: Seq<char>, a: Seq<char>, b: Seq<char>)
    requires
        b.len() > 0,
        a.len() > 0 ==> (a[0] as int) < (b[0] as int),
    ensures
        comes_before(common + a, common + b),
        !comes_before(common + b, common + a),
    decreases common.len(),
{
    let (x, y) = (common + a, common + b);
    if common.len() == 0 {
        assert(x =~= a && y =~= b);
    } else {
        let rest = common.skip(1);
        law_the_first_difference_decides(rest, a, b);
        assert(x[0] == common[0] && y[0] == common[0]);
        assert(x.skip(1) =~= rest + a);
        assert(y.skip(1) =~= rest + b);
    }
}

/// A line ends at a line feed, or at a carriage return in front of one; what
/// follows are the further lines. What has no line feed is one line, and
/// nothing is no line.
pub proof fn law_lines_end_at_line_feeds(line: Seq<char>, rest: Seq<char>)
    requires
        forall|i: int| 0 <= i < line.len() ==> (#[trigger] line[i]) != '\n',
    ensures
        line.len() == 0 || line.last() != '\r' ==> lines(line.push('\n') + rest) == seq![line]
            + lines(rest),
        line.len() > 0 && line.last() == '\r' ==> lines(line.push('\n') + rest) == seq![
            line.drop_last(),
        ] + lines(rest),
        line.len() > 0 ==> lines(line) == seq![line],
        line.len() == 0 ==> lines(line).len() == 0,
{
    let s = line.push('\n') + rest;
    let n = line.len() as int;
    assert forall|i: int| 0 <= i < n implies s[i] != '\n' by {
        assert(s[i] == line[i]);
    }
    lemma_index_of_is_first(s, '\n', n);
    assert(s.skip(n + 1) =~= rest);
    assert(s.take(n) =~= line);
    if n > 0 {
        assert(s.take(n - 1) =~= line.drop_last());
        assert(s[n - 1] == line.last());
        lemma_index_of_is_first(line, '\n', n);
        assert(line.take(n) =~= line);
    }
}

proof fn lemma_word_len_of(word: Seq<char>, rest: Seq<char>)
    requires
        forall|i: int| 0 <= i < word.len() ==> !is_white(#[trigger] word[i]),
        rest.len() > 0 ==> is_white(rest[0]),
    ensures
        word_len(word + rest) == word.len(),
    decreases word.len(),
{
    let s = word + rest;
    if word.len() == 0 {
        assert(s =~= rest);
    } else {
        assert(s[0] == word[0]);
        assert(s.skip(1) =~= word.skip(1) + rest);
        lemma_word_len_of(word.skip(1), rest);
    }
}

/// The fields of a text are the words in it: what comes after any white
/// space, up to the next, is a field, and what follows are the further
/// fields. White space alone has none.
pub proof fn law_fields_are_the_words(before: Seq<char>, word: Seq<char>, rest: Seq<char>)
    requires
        is_blank(before),
        word.len() > 0,
        forall|i: int| 0 <= i < word.len() ==> !is_white(#[trigger] word[i]),
        rest.len() > 0 ==> is_white(rest[0]),
    ensures
        fields(before + word + rest) == seq![word] + fields(rest),
        fields(before).len() == 0,
    decreases before.len(),
{
    let s = before + word + rest;
    if before.len() == 0 {
        assert(s =~= word + rest);
        assert(s[0] == word[0]);
        lemma_word_len_of(word, rest);
        assert(s.take(word.len() as int) =~= word);
        assert(s.skip(word.len() as int) =~= rest);
    } else {
        assert(s[0] == before[0]);
        assert(s.skip(1) =~= before.skip(1) + word + rest);
        law_fields_are_the_words(before.skip(1), word, rest);
    }
}

/// A number is read digit by digit: one more digit makes it the radix times
/// as much and the digit more, where that is in range; a sign that is plus
/// changes nothing; and what holds no digit is no number.
pub proof fn law_numbers_are_read_digit_by_digit(s: Seq<char>, c: char, radix: int, max: int)
    requires
        radix == 10 || radix == 16,
        s.len() > 0,
        s[0] != '+',
        max >= 16,
    ensures
        ({
            let d = if '0' as int <= c as int <= '9' as int {
                c as int - '0' as int
            } else if radix == 16 && 'a' as int <= c as int <= 'f' as int {
                10 + c as int - 'a' as int
            } else if radix == 16 && 'A' as int <= c as int <= 'F' as int {
                10 + c as int - 'A' as int
            } else {
                -1
            };
            let v = unsigned(s, radix, max);
            &&& d >= 0 ==> unsigned(seq![c], radix, max) == Some(d)
            &&& d < 0 ==> unsigned(seq![c], radix, max) is None && unsigned(
                s.push(c),
                radix,
                max,
            ) is None
            &&& v is None ==> unsigned(s.push(c), radix, max) is None
            &&& d >= 0 && v is Some ==> unsigned(s.push(c), radix, max) == (if v->Some_0 * radix + d
                <= max {
                Some(v->Some_0 * radix + d)
            } else {
                None::<int>
            })
            &&& unsigned(seq!['+'] + s, radix, max) == v
            &&& unsigned(Seq::empty(), radix, max) is None
        }),
{
    let one = seq![c];
    assert(one.drop_last() =~= Seq::empty());
    assert(one.last() == c);
    reveal_with_fuel(digits, 2);
    assert(one.skip(1) =~= Seq::empty());
    let more = s.push(c);
    assert(more.drop_last() =~= s);
    assert(more[0] == s[0]);
    let signed = seq!['+'] + s;
    assert(signed[0] == '+');
    assert(signed.skip(1) =~= s);
    if digits(more, radix) is Some {
        lemma_digits_grow(more, s.len() as int, radix);
        assert(more.take(s.len() as int) =~= s);
    }
}

/// A prefix in front of a text is taken away, as often as it stands there,
/// and nothing else is.
pub proof fn law_prefixes_are_taken_away(prefix: Seq<char>, s: Seq<char>)
    requires
        prefix.len() > 0,
    ensures
        without_prefix(prefix + s, prefix) == without_prefix(s, prefix),
        !(s.len() >= prefix.len() && s.take(prefix.len() as int) == prefix) ==> without_prefix(
            s,
            prefix,
        ) == s,
{
    let all = prefix + s;
    assert(all.take(prefix.len() as int) =~= prefix);
    assert(all.skip(prefix.len() as int) =~= s);
}

/// A text is split at the first separator, and only where there is one.
pub proof fn law_texts_are_split_at_the_first_separator(
    front: Seq<char>,
    separator: char,
    rest: Seq<char>,
)
    requires
        forall|i: int| 0 <= i < front.len() ==> (#[trigger] front[i]) != separator,
    ensures
        split_once(front.push(separator) + rest, separator) == Some((front, rest)),
        split_once(front, separator) is None,
{
    let s = front.push(separator) + rest;
    let n = front.len() as int;
    assert forall|i: int| 0 <= i < n implies s[i] != separator by {
        assert(s[i] == front[i]);
    }
    lemma_index_of_is_first(s, separator, n);
    lemma_index_of_is_first(front, separator, n);
    assert(s.take(n) =~= front);
    assert(s.skip(n + 1) =~= rest);
}

} // verus!
