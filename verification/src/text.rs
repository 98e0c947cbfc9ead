//! Characters, words and numbers: the lexical layer of the schedule text.

use vstd::prelude::*;

verus! {

/// Whether `c` is white space: the characters with the Unicode property
/// `White_Space`.
pub open spec fn is_space(c: char) -> bool {
    ||| ('\u{9}' <= c && c <= '\u{d}')
    ||| c == ' '
    ||| c == '\u{85}'
    ||| c == '\u{a0}'
    ||| c == '\u{1680}'
    ||| ('\u{2000}' <= c && c <= '\u{200a}')
    ||| c == '\u{2028}'
    ||| c == '\u{2029}'
    ||| c == '\u{202f}'
    ||| c == '\u{205f}'
    ||| c == '\u{3000}'
}

/// Whether `c` is white space.
pub fn is_whitespace(c: char) -> (r: bool)
    ensures
        r == is_space(c),
{
    ('\u{9}' <= c && c <= '\u{d}') || c == ' ' || c == '\u{85}' || c == '\u{a0}' || c
        == '\u{1680}' || ('\u{2000}' <= c && c <= '\u{200a}') || c == '\u{2028}' || c
        == '\u{2029}' || c == '\u{202f}' || c == '\u{205f}' || c == '\u{3000}'
}

/// What separates the pieces of a text.
#[derive(Clone, Copy, Debug)]
pub enum Delimiter {
    /// Any one white-space character.
    Blank,
    /// Exactly this character.
    Exactly(char),
}

impl Delimiter {
    /// Whether `c` is a delimiter of this kind.
    pub open spec fn accepts(self, c: char) -> bool {
        match self {
            Delimiter::Blank => is_space(c),
            Delimiter::Exactly(d) => c == d,
        }
    }

    /// Whether `c` is a delimiter of this kind.
    pub fn test(&self, c: char) -> (r: bool)
        ensures
            r == self.accepts(c),
    {
        match self {
            Delimiter::Blank => is_whitespace(c),
            Delimiter::Exactly(d) => c == *d,
        }
    }
}

/// The contents of a vector of character vectors.
pub open spec fn rows(v: Seq<Vec<char>>) -> Seq<Seq<char>> {
    Seq::new(v.len(), |i: int| v[i]@)
}

/// The pieces of `s` between delimiters, in order. Every delimiter ends one
/// piece and begins the next, so a text with `n` delimiters has `n + 1`
/// pieces, some of which may be empty.
pub open spec fn pieces(s: Seq<char>, d: Delimiter) -> Seq<Seq<char>>
    decreases s.len(),
{
    if s.len() == 0 {
        seq![Seq::empty()]
    } else {
        let head = pieces(s.drop_last(), d);
        if d.accepts(s.last()) {
            head.push(Seq::empty())
        } else {
            head.drop_last().push(head.last().push(s.last()))
        }
    }
}

/// Every text has at least one piece.
pub proof fn lemma_pieces_nonempty(s: Seq<char>, d: Delimiter)
    ensures
        pieces(s, d).len() >= 1,
    decreases s.len(),
{
    if s.len() > 0 {
        lemma_pieces_nonempty(s.drop_last(), d);
    }
}

/// Splits `s` at every delimiter. Empty pieces are kept.
pub fn split_by(s: &Vec<char>, d: Delimiter) -> (out: Vec<Vec<char>>)
    ensures
        rows(out@) == pieces(s@, d),
{
    let mut out: Vec<Vec<char>> = Vec::new();
    let mut cur: Vec<char> = Vec::new();
    let mut i: usize = 0;
    while i < s.len()
        invariant
            i <= s.len(),
            pieces(s@.take(i as int), d) == rows(out@).push(cur@),
        decreases s.len() - i,
    {
        let c = s[i];
        proof {
            assert(s@.take(i + 1).drop_last() == s@.take(i as int));
            assert(rows(out@).push(cur@).drop_last() == rows(out@));
        }
        if d.test(c) {
            let ghost before = rows(out@);
            out.push(cur);
            cur = Vec::new();
            assert(rows(out@) == before.push(out@[out@.len() - 1]@));
        } else {
            cur.push(c);
        }
        i += 1;
    }
    proof {
        assert(s@.take(s.len() as int) == s@);
    }
    let ghost before = rows(out@);
    out.push(cur);
    assert(rows(out@) == before.push(out@[out@.len() - 1]@));
    out
}

/// The words of `s`: its maximal runs of characters that are not white space.
pub open spec fn fields(s: Seq<char>) -> Seq<Seq<char>> {
    pieces(s, Delimiter::Blank).filter(|p: Seq<char>| p.len() > 0)
}

/// Splits `s` into its words.
pub fn split_fields(s: &Vec<char>) -> (out: Vec<Vec<char>>)
    ensures
        rows(out@) == fields(s@),
{
    let all = split_by(s, Delimiter::Blank);
    let ghost whole = rows(all@);
    let ghost keep = |p: Seq<char>| p.len() > 0;
    let mut out: Vec<Vec<char>> = Vec::new();
    let n = all.len();
    let mut i: usize = 0;
    assert(whole.take(0).filter(keep) == Seq::<Seq<char>>::empty()) by {
        assert(whole.take(0) == Seq::<Seq<char>>::empty());
        reveal(Seq::filter);
    }
    while i < n
        invariant
            i <= n,
            n == all.len(),
            whole == rows(all@),
            keep == (|p: Seq<char>| p.len() > 0),
            rows(out@) == whole.take(i as int).filter(keep),
        decreases n - i,
    {
        proof {
            whole.lemma_take_succ_push(i as int);
            whole.take(i as int).lemma_filter_push(whole[i as int], keep);
        }
        if all[i].len() > 0 {
            let ghost before = rows(out@);
            out.push(all[i].clone());
            assert(rows(out@) == before.push(out@[out@.len() - 1]@));
        }
        i += 1;
    }
    proof {
        assert(whole.take(n as int) == whole);
    }
    out
}

/// Whether `c` is one of the ten decimal digits.
pub open spec fn is_digit(c: char) -> bool {
    '0' <= c && c <= '9'
}

/// The number a decimal digit stands for.
pub open spec fn digit_value(c: char) -> nat {
    if is_digit(c) {
        (c as int - '0' as int) as nat
    } else {
        0
    }
}

/// The number that a run of decimal digits denotes; leading zeros count for
/// nothing.
pub open spec fn digits_value(s: Seq<char>) -> nat
    decreases s.len(),
{
    if s.len() == 0 {
        0
    } else {
        digits_value(s.drop_last()) * 10 + digit_value(s.last())
    }
}

/// Every character is a decimal digit.
pub open spec fn all_digits(s: Seq<char>) -> bool {
    forall|i: int| 0 <= i < s.len() ==> is_digit(#[trigger] s[i])
}

/// A run of at least one digit whose value fits in 32 bits.
pub open spec fn magnitude(s: Seq<char>) -> Option<u32> {
    if s.len() > 0 && all_digits(s) && digits_value(s) <= u32::MAX {
        Some(digits_value(s) as u32)
    } else {
        None
    }
}

/// An unsigned number: a magnitude that a single `+` may precede.
pub open spec fn unsigned(s: Seq<char>) -> Option<u32> {
    if s.len() > 0 && s[0] == '+' {
        magnitude(s.drop_first())
    } else {
        magnitude(s)
    }
}

/// A prefix of a digit run never denotes more than the whole run.
pub proof fn lemma_digits_value_prefix(s: Seq<char>, k: int)
    requires
        0 <= k <= s.len(),
    ensures
        digits_value(s.take(k)) <= digits_value(s),
    decreases s.len(),
{
    if k == s.len() {
        assert(s.take(k) == s);
    } else {
        assert(s.drop_last().take(k) == s.take(k));
        lemma_digits_value_prefix(s.drop_last(), k);
    }
}

/// The value of `c` as a decimal digit, if it is one.
pub fn read_digit(c: char) -> (r: Option<u32>)
    ensures
        r is Some <==> is_digit(c),
        r is Some ==> r->0 == digit_value(c),
{
    if '0' <= c && c <= '9' {
        Some(c as u32 - '0' as u32)
    } else {
        None
    }
}

/// Reads `s` from position `from` to its end as a run of digits.
pub fn read_magnitude(s: &Vec<char>, from: usize) -> (r: Option<u32>)
    requires
        from <= s.len(),
    ensures
        r == magnitude(s@.skip(from as int)),
{
    let ghost t = s@.skip(from as int);
    if from == s.len() {
        return None;
    }
    let mut acc: u64 = 0;
    let mut i: usize = from;
    while i < s.len()
        invariant
            from <= i <= s.len(),
            t == s@.skip(from as int),
            all_digits(t.take(i - from)),
            acc == digits_value(t.take(i - from)),
            acc <= u32::MAX,
        decreases s.len() - i,
    {
        proof {
            assert(t.take(i - from + 1).drop_last() == t.take(i - from));
            assert(t[i - from] == s@[i as int]);
            lemma_digits_value_prefix(t, i - from + 1);
        }
        match read_digit(s[i]) {
            None => {
                return None;
            },
            Some(d) => {
                let next: u64 = acc * 10 + d as u64;
                if next > u32::MAX as u64 {
                    return None;
                }
                acc = next;
            },
        }
        i += 1;
    }
    proof {
        assert(t.take(t.len() as int) == t);
    }
    Some(acc as u32)
}

/// Reads `s` as an unsigned number of 32 bits.
pub fn read_unsigned(s: &Vec<char>) -> (r: Option<u32>)
    ensures
        r == unsigned(s@),
{
    if s.len() > 0 && s[0] == '+' {
        proof {
            assert(s@.drop_first() == s@.skip(1));
        }
        read_magnitude(s, 1)
    } else {
        proof {
            assert(s@.skip(0) == s@);
        }
        read_magnitude(s, 0)
    }
}

/// The character that stands for a digit below ten.
pub open spec fn digit_char(d: nat) -> char {
    ('0' as nat + d) as char
}

/// A number in decimal, without sign or leading zeros.
pub open spec fn decimal(n: nat) -> Seq<char>
    decreases n,
{
    if n < 10 {
        seq![digit_char(n)]
    } else {
        decimal(n / 10).push(digit_char(n % 10))
    }
}

/// The parts in order, with `sep` between each two of them.
pub open spec fn join(parts: Seq<Seq<char>>, sep: char) -> Seq<char>
    decreases parts.len(),
{
    if parts.len() == 0 {
        Seq::empty()
    } else if parts.len() == 1 {
        parts[0]
    } else {
        join(parts.drop_last(), sep).push(sep) + parts.last()
    }
}

/// A number written in decimal reads back as itself.
pub proof fn law_decimal_reads_back(n: nat)
    ensures
        decimal(n).len() > 0,
        all_digits(decimal(n)),
        digits_value(decimal(n)) == n,
        n <= u32::MAX ==> unsigned(decimal(n)) == Some(n as u32),
    decreases n,
{
    if n < 10 {
        assert(decimal(n).drop_last() == Seq::<char>::empty());
        assert(digits_value(decimal(n).drop_last()) == 0);
    } else {
        law_decimal_reads_back(n / 10);
        assert(decimal(n).drop_last() == decimal(n / 10));
    }
}

/// No character of `s` is a delimiter.
pub open spec fn free_of(s: Seq<char>, d: Delimiter) -> bool {
    forall|i: int| 0 <= i < s.len() ==> !d.accepts(#[trigger] s[i])
}

/// A word: at least one character, none of them white space.
pub open spec fn is_word(s: Seq<char>) -> bool {
    s.len() > 0 && free_of(s, Delimiter::Blank)
}

/// Text without delimiters, put behind any text, lengthens its last piece.
pub proof fn lemma_pieces_append(s: Seq<char>, t: Seq<char>, d: Delimiter)
    requires
        free_of(t, d),
    ensures
        pieces(s + t, d) == pieces(s, d).drop_last().push(pieces(s, d).last() + t),
    decreases t.len(),
{
    let p = pieces(s, d);
    lemma_pieces_nonempty(s, d);
    if t.len() == 0 {
        assert(s + t == s);
        assert(p.last() + t == p.last());
        assert(p.drop_last().push(p.last()) == p);
    } else {
        let t0 = t.drop_last();
        assert((s + t).drop_last() == s + t0);
        assert((s + t).last() == t.last());
        assert(free_of(t0, d)) by {
            assert forall|i: int| 0 <= i < t0.len() implies !d.accepts(#[trigger] t0[i]) by {
                assert(t0[i] == t[i]);
            }
        }
        lemma_pieces_append(s, t0, d);
        let head = pieces(s + t0, d);
        assert(!d.accepts(t[t.len() - 1]));
        assert(head.drop_last() == p.drop_last());
        assert(head.last().push(t.last()) == p.last() + t);
    }
}

/// Splitting undoes joining: parts without delimiters, joined by a
/// delimiter, come apart as they were.
pub proof fn law_pieces_of_join(parts: Seq<Seq<char>>, sep: char, d: Delimiter)
    requires
        parts.len() >= 1,
        d.accepts(sep),
        forall|i: int| 0 <= i < parts.len() ==> free_of(#[trigger] parts[i], d),
    ensures
        pieces(join(parts, sep), d) == parts,
    decreases parts.len(),
{
    let none = Seq::<char>::empty();
    if parts.len() == 1 {
        lemma_pieces_append(none, parts[0], d);
        assert(none + parts[0] == parts[0]);
        assert(pieces(none, d).drop_last().push(pieces(none, d).last() + parts[0]) == parts);
    } else {
        let head = parts.drop_last();
        assert forall|i: int| 0 <= i < head.len() implies free_of(#[trigger] head[i], d) by {
            assert(head[i] == parts[i]);
        }
        law_pieces_of_join(head, sep, d);
        let a = join(head, sep);
        assert(a.push(sep).drop_last() == a);
        assert(pieces(a.push(sep), d) == head.push(none));
        assert(free_of(parts.last(), d)) by {
            assert(parts.last() == parts[parts.len() - 1]);
        }
        lemma_pieces_append(a.push(sep), parts.last(), d);
        assert(head.push(none).drop_last() == head);
        assert(none + parts.last() == parts.last());
        assert(head.push(parts.last()) == parts);
    }
}

/// Words joined by a space are the fields of the text they make.
pub proof fn law_fields_of_join(parts: Seq<Seq<char>>)
    requires
        parts.len() >= 1,
        forall|i: int| 0 <= i < parts.len() ==> is_word(#[trigger] parts[i]),
    ensures
        fields(join(parts, ' ')) == parts,
{
    law_pieces_of_join(parts, ' ', Delimiter::Blank);
    lemma_filter_keeps_all(parts);
}

proof fn lemma_filter_keeps_all(parts: Seq<Seq<char>>)
    requires
        forall|i: int| 0 <= i < parts.len() ==> (#[trigger] parts[i]).len() > 0,
    ensures
        parts.filter(|p: Seq<char>| p.len() > 0) == parts,
    decreases parts.len(),
{
    let keep = |p: Seq<char>| p.len() > 0;
    if parts.len() == 0 {
        parts.lemma_filter_len(keep);
        assert(parts.filter(keep) =~= parts);
    } else {
        let head = parts.drop_last();
        assert forall|i: int| 0 <= i < head.len() implies (#[trigger] head[i]).len() > 0 by {
            assert(head[i] == parts[i]);
        }
        lemma_filter_keeps_all(head);
        head.lemma_filter_push(parts.last(), keep);
        assert(head.push(parts.last()) == parts);
        assert(parts[parts.len() - 1].len() > 0);
    }
}

/// Joining keeps out every delimiter that is neither in a part nor the
/// separator, and the text is not empty where the last part is not.
pub proof fn lemma_join_free(parts: Seq<Seq<char>>, sep: char, d: Delimiter)
    requires
        !d.accepts(sep),
        forall|i: int| 0 <= i < parts.len() ==> free_of(#[trigger] parts[i], d),
    ensures
        free_of(join(parts, sep), d),
        parts.len() >= 1 ==> join(parts, sep).len() >= parts.last().len(),
    decreases parts.len(),
{
    if parts.len() >= 2 {
        let head = parts.drop_last();
        assert forall|i: int| 0 <= i < head.len() implies free_of(#[trigger] head[i], d) by {
            assert(head[i] == parts[i]);
        }
        lemma_join_free(head, sep, d);
        let a = join(head, sep).push(sep);
        let whole = join(parts, sep);
        assert(free_of(parts[parts.len() - 1], d));
        assert forall|i: int| 0 <= i < whole.len() implies !d.accepts(#[trigger] whole[i]) by {
            if i < a.len() - 1 {
                assert(whole[i] == join(head, sep)[i]);
            } else if i == a.len() - 1 {
                assert(whole[i] == sep);
            } else {
                assert(whole[i] == parts.last()[i - a.len()]);
            }
        }
    } else if parts.len() == 1 {
        assert(free_of(parts[0], d));
    }
}

/// A number in decimal is a word without commas.
pub proof fn lemma_decimal_is_word(n: nat)
    ensures
        is_word(decimal(n)),
        free_of(decimal(n), Delimiter::Exactly(',')),
        decimal(n)[0] != '+',
        decimal(n)[0] != '-',
        decimal(n)[0] != '#',
{
    law_decimal_reads_back(n);
    let s = decimal(n);
    assert forall|i: int| 0 <= i < s.len() implies !Delimiter::Blank.accepts(#[trigger] s[i])
        && !Delimiter::Exactly(',').accepts(s[i]) by {
        assert(is_digit(s[i]));
    }
    assert(is_digit(s[0]));
}

fn digit_of(d: u32) -> (c: char)
    requires
        d < 10,
    ensures
        c == digit_char(d as nat),
{
    (48u8 + d as u8) as char
}

/// Appends `n` in decimal.
pub fn push_decimal(out: &mut Vec<char>, n: u32)
    ensures
        final(out)@ == old(out)@ + decimal(n as nat),
    decreases n,
{
    if n >= 10 {
        push_decimal(out, n / 10);
    }
    out.push(digit_of(n % 10));
}

/// Appends the characters of `part`.
pub fn append(out: &mut Vec<char>, part: &Vec<char>)
    ensures
        final(out)@ == old(out)@ + part@,
{
    let mut i: usize = 0;
    while i < part.len()
        invariant
            i <= part.len(),
            out@ == old(out)@ + part@.take(i as int),
        decreases part.len() - i,
    {
        out.push(part[i]);
        i += 1;
    }
    assert(part@.take(part.len() as int) == part@);
}

/// Joins the parts, with `sep` between each two of them.
pub fn join_with(parts: &Vec<Vec<char>>, sep: char) -> (out: Vec<char>)
    ensures
        out@ == join(rows(parts@), sep),
{
    let ghost all = rows(parts@);
    let mut out: Vec<char> = Vec::new();
    let mut i: usize = 0;
    assert(all.take(0) == Seq::<Seq<char>>::empty());
    while i < parts.len()
        invariant
            i <= parts.len(),
            all == rows(parts@),
            out@ == join(all.take(i as int), sep),
        decreases parts.len() - i,
    {
        proof {
            assert(all.take(i + 1).drop_last() == all.take(i as int));
            assert(all.take(i + 1).last() == parts@[i as int]@);
        }
        if i > 0 {
            out.push(sep);
        }
        append(&mut out, &parts[i]);
        i += 1;
    }
    assert(all.take(parts.len() as int) == all);
    out
}

/// The characters of a string, in order.
pub fn chars_of(s: &str) -> (v: Vec<char>)
    ensures
        v@ == s@,
{
    let mut v: Vec<char> = Vec::new();
    for c in it: s.chars()
        invariant
            v@ == it.seq().take(it.index() as int),
    {
        v.push(c);
    }
    v
}

/// `String::push` appends the character to the end of the string and leaves
/// the rest as it was.
pub assume_specification[ String::push ](s: &mut String, ch: char)
    ensures
        final(s)@ == old(s)@.push(ch),
;

/// The string of the given characters, in order.
pub fn string_of(chars: &Vec<char>) -> (s: String)
    ensures
        s@ == chars@,
{
    let mut s = String::new();
    let mut i: usize = 0;
    while i < chars.len()
        invariant
            i <= chars.len(),
            s@ == chars@.take(i as int),
        decreases chars.len() - i,
    {
        s.push(chars[i]);
        assert(chars@.take(i + 1) == chars@.take(i as int).push(chars@[i as int]));
        i += 1;
    }
    assert(chars@.take(chars.len() as int) == chars@);
    s
}

/// Whether `x` is among the numbers of `v`.
pub fn lists(v: &Vec<u32>, x: u32) -> (r: bool)
    ensures
        r == v@.contains(x),
{
    let mut i: usize = 0;
    while i < v.len()
        invariant
            i <= v.len(),
            forall|k: int| 0 <= k < i ==> v@[k] != x,
        decreases v.len() - i,
    {
        if v[i] == x {
            return true;
        }
        i += 1;
    }
    false
}

} // verus!
