//! Character classes and splitting of text into labels, lines and words.

use vstd::prelude::*;

verus! {

/// `String::push` appends the character to the end of the string.
pub assume_specification[ String::push ](s: &mut String, c: char)
    ensures
        final(s)@ == old(s)@.push(c),
;

/// An ASCII letter, upper or lower case.
pub open spec fn is_letter(c: char) -> bool {
    ('a' <= c && c <= 'z') || ('A' <= c && c <= 'Z')
}

/// An ASCII lower-case letter.
pub open spec fn is_lower(c: char) -> bool {
    'a' <= c && c <= 'z'
}

/// An ASCII upper-case letter.
pub open spec fn is_upper(c: char) -> bool {
    'A' <= c && c <= 'Z'
}

/// A text without ASCII upper-case letters.
pub open spec fn is_lower_text(s: Seq<char>) -> bool {
    forall|i: int| 0 <= i < s.len() ==> !is_upper(#[trigger] s[i])
}

/// An ASCII decimal digit.
pub open spec fn is_digit(c: char) -> bool {
    '0' <= c && c <= '9'
}

/// An ASCII letter or digit.
pub open spec fn is_alphanumeric(c: char) -> bool {
    is_letter(c) || is_digit(c)
}

/// A character that may stand in a domain name: letter, digit, hyphen or dot.
pub open spec fn is_domain_char(c: char) -> bool {
    is_alphanumeric(c) || c == '-' || c == '.'
}

/// A character with the Unicode property `White_Space`.
pub open spec fn is_whitespace(c: char) -> bool {
    ||| ('\u{9}' <= c && c <= '\u{d}')
    ||| c == ' '
    ||| c == '\u{85}'
    ||| c == '\u{a0}'
    ||| c == '\u{1680}'
    ||| ('\u{2000}' <= c && c <= '\u{200a}')
    ||| c == '\u{2028}'
    ||| c == '\u{2029}'
    ||| c == '\u{202f}'
    ||| c == '\u{205f}'
    ||| c == '\u{3000}'
}

/// Every character of `s` is in the ASCII range.
pub open spec fn is_ascii_text(s: Seq<char>) -> bool {
    forall|i: int| 0 <= i < s.len() ==> #[trigger] s[i] <= '\u{7f}'
}

pub fn letter(c: char) -> (r: bool)
    ensures
        r == is_letter(c),
{
    ('a' <= c && c <= 'z') || ('A' <= c && c <= 'Z')
}

pub fn alphanumeric(c: char) -> (r: bool)
    ensures
        r == is_alphanumeric(c),
{
    letter(c) || ('0' <= c && c <= '9')
}

pub fn domain_char(c: char) -> (r: bool)
    ensures
        r == is_domain_char(c),
{
    alphanumeric(c) || c == '-' || c == '.'
}

pub fn whitespace(c: char) -> (r: bool)
    ensures
        r == is_whitespace(c),
{
    ('\u{9}' <= c && c <= '\u{d}') || c == ' ' || c == '\u{85}' || c == '\u{a0}' || c
        == '\u{1680}' || ('\u{2000}' <= c && c <= '\u{200a}') || c == '\u{2028}' || c
        == '\u{2029}' || c == '\u{202f}' || c == '\u{205f}' || c == '\u{3000}'
}

pub fn ascii_text(s: &Vec<char>) -> (r: bool)
    ensures
        r == is_ascii_text(s@),
{
    let mut i: usize = 0;
    while i < s.len()
        invariant
            i <= s.len(),
            forall|j: int| 0 <= j < i ==> #[trigger] s@[j] <= '\u{7f}',
        decreases s.len() - i,
    {
        if s[i] > '\u{7f}' {
            return false;
        }
        i += 1;
    }
    true
}

/// The characters of a string slice, in order.
pub fn chars_of(s: &str) -> (r: Vec<char>)
    ensures
        r@ == s@,
{
    let mut out: Vec<char> = Vec::new();
    for c in it: s.chars()
        invariant
            it.seq() == s@,
            out@ == s@.take(it.index()),
    {
        out.push(c);
    }
    assert(s@.take(s@.len() as int) == s@);
    out
}

/// The string that holds the given characters, in order.
pub fn string_of(chars: &Vec<char>) -> (r: String)
    ensures
        r@ == chars@,
{
    let mut out = String::new();
    let mut i: usize = 0;
    while i < chars.len()
        invariant
            i <= chars.len(),
            out@ == chars@.take(i as int),
        decreases chars.len() - i,
    {
        out.push(chars[i]);
        i += 1;
    }
    assert(chars@.take(chars@.len() as int) == chars@);
    out
}

/// Whether two character sequences are the same.
pub fn same_chars(a: &Vec<char>, b: &Vec<char>) -> (r: bool)
    ensures
        r == (a@ == b@),
{
    if a.len() != b.len() {
        return false;
    }
    let mut i: usize = 0;
    while i < a.len()
        invariant
            i <= a.len(),
            a.len() == b.len(),
            forall|j: int| 0 <= j < i ==> a@[j] == b@[j],
        decreases a.len() - i,
    {
        if a[i] != b[i] {
            return false;
        }
        i += 1;
    }
    assert(a@ =~= b@);
    true
}

/// Whether two strings hold the same text.
pub fn same_text(a: &str, b: &str) -> (r: bool)
    ensures
        r == (a@ == b@),
{
    same_chars(&chars_of(a), &chars_of(b))
}

/// The character of a decimal digit.
pub open spec fn digit_char(d: nat) -> char {
    if d == 0 {
        '0'
    } else if d == 1 {
        '1'
    } else if d == 2 {
        '2'
    } else if d == 3 {
        '3'
    } else if d == 4 {
        '4'
    } else if d == 5 {
        '5'
    } else if d == 6 {
        '6'
    } else if d == 7 {
        '7'
    } else if d == 8 {
        '8'
    } else {
        '9'
    }
}

/// A number written in decimal digits, without leading zeros.
pub open spec fn decimal_digits(n: nat) -> Seq<char>
    decreases n,
{
    if n < 10 {
        seq![digit_char(n)]
    } else {
        decimal_digits(n / 10).push(digit_char(n % 10))
    }
}

fn digit(d: usize) -> (r: char)
    requires
        d < 10,
    ensures
        r == digit_char(d as nat),
{
    if d == 0 {
        '0'
    } else if d == 1 {
        '1'
    } else if d == 2 {
        '2'
    } else if d == 3 {
        '3'
    } else if d == 4 {
        '4'
    } else if d == 5 {
        '5'
    } else if d == 6 {
        '6'
    } else if d == 7 {
        '7'
    } else if d == 8 {
        '8'
    } else {
        '9'
    }
}

/// Writes a number in decimal digits.
pub fn decimal(n: usize) -> (r: String)
    ensures
        r@ == decimal_digits(n as nat),
    decreases n,
{
    if n < 10 {
        let mut out = String::new();
        out.push(digit(n));
        assert(out@ =~= seq![digit_char(n as nat)]);
        out
    } else {
        let mut out = decimal(n / 10);
        out.push(digit(n % 10));
        out
    }
}

/// What a text is cut at.
#[derive(Clone, Copy, Debug)]
pub enum Separator {
    /// The dot between the labels of a domain name.
    Dot,
    /// The line feed that ends a line.
    Newline,
    /// Any white space, between the words of a line.
    Whitespace,
}

impl Separator {
    /// Whether `c` is a separator of this kind.
    pub open spec fn matches(self, c: char) -> bool {
        match self {
            Separator::Dot => c == '.',
            Separator::Newline => c == '\n',
            Separator::Whitespace => is_whitespace(c),
        }
    }

    pub fn test(self, c: char) -> (r: bool)
        ensures
            r == self.matches(c),
    {
        match self {
            Separator::Dot => c == '.',
            Separator::Newline => c == '\n',
            Separator::Whitespace => whitespace(c),
        }
    }
}

/// The pieces of `s` between its separators: one more piece than there are
/// separators in `s`; a piece is empty where two separators meet, or where
/// `s` begins or ends with one.
pub open spec fn split(s: Seq<char>, sep: Separator) -> Seq<Seq<char>>
    decreases s.len(),
{
    if s.len() == 0 {
        seq![Seq::empty()]
    } else {
        let before = split(s.drop_last(), sep);
        if sep.matches(s.last()) {
            before.push(Seq::empty())
        } else {
            before.drop_last().push(before.last().push(s.last()))
        }
    }
}

/// The pieces put together again, with a dot between neighbours.
pub open spec fn join(pieces: Seq<Seq<char>>) -> Seq<char>
    decreases pieces.len(),
{
    if pieces.len() == 0 {
        Seq::empty()
    } else if pieces.len() == 1 {
        pieces[0]
    } else {
        join(pieces.drop_last()) + seq!['.'] + pieces.last()
    }
}

/// The character sequences that the vectors of `v` hold.
pub open spec fn pieces_of(v: Seq<Vec<char>>) -> Seq<Seq<char>> {
    Seq::new(v.len(), |i: int| v[i]@)
}

pub proof fn lemma_split_nonempty(s: Seq<char>, sep: Separator)
    ensures
        split(s, sep).len() >= 1,
    decreases s.len(),
{
    if s.len() > 0 {
        lemma_split_nonempty(s.drop_last(), sep);
    }
}

/// Cuts `s` at every separator of the given kind.
pub fn split_chars(s: &Vec<char>, sep: Separator) -> (r: Vec<Vec<char>>)
    ensures
        pieces_of(r@) == split(s@, sep),
{
    let mut done: Vec<Vec<char>> = Vec::new();
    let mut piece: Vec<char> = Vec::new();
    let mut i: usize = 0;
    while i < s.len()
        invariant
            i <= s.len(),
            pieces_of(done@).push(piece@) == split(s@.take(i as int), sep),
        decreases s.len() - i,
    {
        let c = s[i];
        proof {
            let next = s@.take(i + 1);
            assert(next.drop_last() == s@.take(i as int));
            assert(next.last() == c);
            let before = pieces_of(done@).push(piece@);
            assert(before.drop_last() == pieces_of(done@));
            assert(before.last() == piece@);
        }
        if sep.test(c) {
            let ghost before = pieces_of(done@);
            done.push(piece);
            piece = Vec::new();
            assert(pieces_of(done@) == before.push(done@.last()@));
        } else {
            piece.push(c);
        }
        i += 1;
    }
    assert(s@.take(s@.len() as int) == s@);
    let ghost before = pieces_of(done@);
    done.push(piece);
    assert(pieces_of(done@) == before.push(piece@));
    done
}

/// Cutting a text at its dots and joining the pieces with dots gives the
/// text back.
pub proof fn lemma_join_split(s: Seq<char>)
    ensures
        join(split(s, Separator::Dot)) == s,
    decreases s.len(),
{
    if s.len() == 0 {
        assert(split(s, Separator::Dot) == seq![Seq::<char>::empty()]);
        assert(join(split(s, Separator::Dot)) == Seq::<char>::empty());
    } else {
        let t = s.drop_last();
        let before = split(t, Separator::Dot);
        lemma_split_nonempty(t, Separator::Dot);
        lemma_join_split(t);
        assert(s == t.push(s.last()));
        if s.last() == '.' {
            let now = before.push(Seq::empty());
            assert(now.drop_last() == before);
            assert(join(now) == join(before) + seq!['.'] + Seq::<char>::empty());
            assert(join(now) == s);
        } else {
            let now = before.drop_last().push(before.last().push(s.last()));
            if before.len() == 1 {
                assert(join(before) == before[0]);
                assert(join(now) == now[0]);
                assert(join(now) == s);
            } else {
                assert(now.drop_last() == before.drop_last());
                assert(join(now) == join(before.drop_last()) + seq!['.'] + before.last().push(
                    s.last(),
                ));
                assert(join(before) == join(before.drop_last()) + seq!['.'] + before.last());
                assert(join(now) == join(before).push(s.last()));
            }
        }
    }
}

/// A text joined from pieces of domain characters holds domain characters
/// only.
pub proof fn lemma_join_domain_chars(pieces: Seq<Seq<char>>)
    requires
        forall|i: int, j: int|
            0 <= i < pieces.len() && 0 <= j < pieces[i].len() ==> is_domain_char(
                #[trigger] pieces[i][j],
            ),
    ensures
        forall|k: int| 0 <= k < join(pieces).len() ==> is_domain_char(#[trigger] join(pieces)[k]),
    decreases pieces.len(),
{
    if pieces.len() >= 2 {
        let before = pieces.drop_last();
        assert forall|i: int, j: int|
            0 <= i < before.len() && 0 <= j < before[i].len() implies is_domain_char(
            #[trigger] before[i][j],
        ) by {
            assert(before[i][j] == pieces[i][j]);
        }
        lemma_join_domain_chars(before);
        let whole = join(pieces);
        let head = join(before);
        assert forall|k: int| 0 <= k < whole.len() implies is_domain_char(#[trigger] whole[k]) by {
            if k < head.len() {
                assert(whole[k] == head[k]);
            } else if k == head.len() {
                assert(whole[k] == '.');
            } else {
                assert(whole[k] == pieces.last()[k - head.len() - 1]);
            }
        }
    } else if pieces.len() == 1 {
        assert forall|k: int| 0 <= k < join(pieces).len() implies is_domain_char(
            #[trigger] join(pieces)[k],
        ) by {
            assert(join(pieces)[k] == pieces[0][k]);
        }
    }
}

/// Two texts put together have the pieces of both, the last piece of the
/// first and the first piece of the second being one piece.
pub proof fn lemma_split_concat_len(a: Seq<char>, b: Seq<char>, sep: Separator)
    ensures
        split(a + b, sep).len() + 1 == split(a, sep).len() + split(b, sep).len(),
    decreases b.len(),
{
    lemma_split_nonempty(a, sep);
    if b.len() == 0 {
        assert(a + b == a);
    } else {
        let whole = a + b;
        assert(whole.drop_last() == a + b.drop_last());
        assert(whole.last() == b.last());
        lemma_split_concat_len(a, b.drop_last(), sep);
        lemma_split_nonempty(b.drop_last(), sep);
        lemma_split_nonempty(whole.drop_last(), sep);
    }
}

/// Where the piece of index `i` begins in the joined text.
pub open spec fn piece_start(pieces: Seq<Seq<char>>, i: int) -> int {
    if i <= 0 {
        0
    } else {
        (join(pieces.take(i)).len() + 1) as int
    }
}

/// No piece holds a dot.
pub open spec fn dot_free(pieces: Seq<Seq<char>>) -> bool {
    forall|i: int, j: int|
        0 <= i < pieces.len() && 0 <= j < pieces[i].len() ==> #[trigger] pieces[i][j] != '.'
}

/// The pieces of a text hold characters of the text, and no separator.
pub proof fn lemma_split_pieces(s: Seq<char>, sep: Separator)
    ensures
        forall|i: int, j: int|
            0 <= i < split(s, sep).len() && 0 <= j < split(s, sep)[i].len() ==> s.contains(
                #[trigger] split(s, sep)[i][j],
            ) && !sep.matches(split(s, sep)[i][j]),
    decreases s.len(),
{
    if s.len() > 0 {
        let t = s.drop_last();
        let before = split(t, sep);
        let now = split(s, sep);
        lemma_split_pieces(t, sep);
        lemma_split_nonempty(t, sep);
        assert forall|i: int, j: int| 0 <= i < now.len() && 0 <= j < now[i].len() implies s.contains(
            #[trigger] now[i][j],
        ) && !sep.matches(now[i][j]) by {
            if i < before.len() && j < before[i].len() {
                assert(now[i][j] == before[i][j]);
                assert(t.contains(before[i][j]));
                let k = choose|k: int| 0 <= k < t.len() && t[k] == before[i][j];
                assert(s[k] == before[i][j]);
            } else {
                assert(now[i][j] == s.last());
                assert(s[s.len() - 1] == s.last());
            }
        }
    }
}

/// A text without a separator is one piece.
pub proof fn lemma_split_whole(s: Seq<char>, sep: Separator)
    requires
        forall|j: int| 0 <= j < s.len() ==> !sep.matches(#[trigger] s[j]),
    ensures
        split(s, sep) == seq![s],
    decreases s.len(),
{
    if s.len() > 0 {
        let t = s.drop_last();
        assert forall|j: int| 0 <= j < t.len() implies !sep.matches(#[trigger] t[j]) by {
            assert(t[j] == s[j]);
        }
        lemma_split_whole(t, sep);
        assert(!sep.matches(s[s.len() - 1]));
        assert(t.push(s.last()) == s);
        assert(split(s, sep) == seq![s]);
    } else {
        assert(s == Seq::<char>::empty());
    }
}

/// Behind a dot, a text without dots is one more piece.
pub proof fn lemma_split_append(a: Seq<char>, b: Seq<char>)
    requires
        forall|j: int| 0 <= j < b.len() ==> #[trigger] b[j] != '.',
    ensures
        split(a + seq!['.'] + b, Separator::Dot) == split(a, Separator::Dot).push(b),
    decreases b.len(),
{
    let whole = a + seq!['.'] + b;
    if b.len() == 0 {
        assert(whole.drop_last() == a);
        assert(b == Seq::<char>::empty());
    } else {
        let t = b.drop_last();
        assert forall|j: int| 0 <= j < t.len() implies #[trigger] t[j] != '.' by {
            assert(t[j] == b[j]);
        }
        lemma_split_append(a, t);
        assert(whole.drop_last() == a + seq!['.'] + t);
        assert(whole.last() == b.last());
        assert(b[b.len() - 1] != '.');
        let before = split(a, Separator::Dot).push(t);
        assert(before.drop_last() == split(a, Separator::Dot));
        assert(t.push(b.last()) == b);
    }
}

/// Joining pieces without dots and cutting at the dots gives the pieces
/// back.
pub proof fn lemma_split_join(pieces: Seq<Seq<char>>)
    requires
        pieces.len() >= 1,
        dot_free(pieces),
    ensures
        split(join(pieces), Separator::Dot) == pieces,
    decreases pieces.len(),
{
    if pieces.len() == 1 {
        assert forall|j: int| 0 <= j < pieces[0].len() implies !Separator::Dot.matches(
            #[trigger] pieces[0][j],
        ) by {}
        lemma_split_whole(pieces[0], Separator::Dot);
        assert(pieces == seq![pieces[0]]);
    } else {
        let before = pieces.drop_last();
        assert forall|i: int, j: int|
            0 <= i < before.len() && 0 <= j < before[i].len() implies #[trigger] before[i][j]
            != '.' by {
            assert(before[i][j] == pieces[i][j]);
        }
        lemma_split_join(before);
        assert forall|j: int| 0 <= j < pieces.last().len() implies #[trigger] pieces.last()[j]
            != '.' by {
            assert(pieces.last()[j] == pieces[pieces.len() - 1][j]);
        }
        lemma_split_append(join(before), pieces.last());
        assert(before.push(pieces.last()) == pieces);
    }
}

/// The first pieces joined are the beginning of all pieces joined.
pub proof fn lemma_join_take(pieces: Seq<Seq<char>>, k: int)
    requires
        1 <= k <= pieces.len(),
    ensures
        join(pieces.take(k)).len() <= join(pieces).len(),
        join(pieces).take(join(pieces.take(k)).len() as int) == join(pieces.take(k)),
    decreases pieces.len() - k,
{
    if k == pieces.len() {
        assert(pieces.take(k) == pieces);
        assert(join(pieces).take(join(pieces).len() as int) == join(pieces));
    } else {
        let before = pieces.drop_last();
        assert(before.take(k) == pieces.take(k));
        lemma_join_take(before, k);
        let head = join(before);
        let whole = join(pieces);
        assert(whole == head + seq!['.'] + pieces.last());
        let n = join(pieces.take(k)).len() as int;
        assert(whole.take(n) == head.take(n));
    }
}

/// The first pieces and the beginning of the next one, joined, are the
/// beginning of all pieces joined, up to that place.
pub proof fn lemma_join_prefix(pieces: Seq<Seq<char>>, i: int, j: int)
    requires
        0 <= i < pieces.len(),
        0 <= j <= pieces[i].len(),
    ensures
        piece_start(pieces, i) + j <= join(pieces).len(),
        join(pieces.take(i).push(pieces[i].take(j))) == join(pieces).take(
            piece_start(pieces, i) + j,
        ),
{
    let part = pieces.take(i).push(pieces[i].take(j));
    let full = pieces.take(i + 1);
    lemma_join_take(pieces, i + 1);
    assert(full.last() == pieces[i]);
    if i == 0 {
        assert(join(part) == pieces[0].take(j));
        assert(join(full) == pieces[0]);
        assert(join(pieces).take(j) == join(full).take(j));
    } else {
        assert(part.drop_last() == pieces.take(i));
        assert(full.drop_last() == pieces.take(i));
        let head = join(pieces.take(i));
        assert(join(part) == head + seq!['.'] + pieces[i].take(j));
        assert(join(full) == head + seq!['.'] + pieces[i]);
        let n = piece_start(pieces, i) + j;
        assert(join(full).take(n) == join(part));
        assert(join(pieces).take(n) == join(pieces).take(join(full).len() as int).take(n));
    }
}

/// Every place in the joined text is in or just behind one of the pieces.
pub proof fn lemma_locate(pieces: Seq<Seq<char>>, n: int) -> (r: (int, int))
    requires
        pieces.len() >= 1,
        0 <= n <= join(pieces).len(),
    ensures
        0 <= r.0 < pieces.len(),
        0 <= r.1 <= pieces[r.0].len(),
        n == piece_start(pieces, r.0) + r.1,
    decreases pieces.len(),
{
    if pieces.len() == 1 {
        (0, n)
    } else {
        let before = pieces.drop_last();
        let last = pieces.len() - 1;
        assert(pieces.take(last) == before);
        if n <= join(before).len() {
            let r = lemma_locate(before, n);
            assert(before.take(r.0) == pieces.take(r.0));
            assert(before[r.0] == pieces[r.0]);
            r
        } else {
            (last, n - join(before).len() - 1)
        }
    }
}

/// A later piece begins no earlier than an earlier one.
pub proof fn lemma_piece_start_ordered(pieces: Seq<Seq<char>>, i: int, j: int)
    requires
        0 <= i <= j <= pieces.len(),
    ensures
        piece_start(pieces, i) <= piece_start(pieces, j),
    decreases j - i,
{
    if i < j {
        lemma_piece_start_ordered(pieces, i, j - 1);
        assert(pieces.take(j).drop_last() == pieces.take(j - 1));
    }
}

/// The pieces of a text without upper-case letters have none.
pub proof fn lemma_split_lower(s: Seq<char>, sep: Separator)
    requires
        is_lower_text(s),
    ensures
        forall|i: int| 0 <= i < split(s, sep).len() ==> is_lower_text(#[trigger] split(s, sep)[i]),
{
    lemma_split_pieces(s, sep);
    assert forall|i: int| 0 <= i < split(s, sep).len() implies is_lower_text(
        #[trigger] split(s, sep)[i],
    ) by {
        let piece = split(s, sep)[i];
        assert forall|j: int| 0 <= j < piece.len() implies !is_upper(#[trigger] piece[j]) by {
            assert(s.contains(split(s, sep)[i][j]));
            let k = choose|k: int| 0 <= k < s.len() && s[k] == piece[j];
            assert(!is_upper(s[k]));
        }
    }
}

/// A text joined from pieces without upper-case letters has none.
pub proof fn lemma_join_lower(pieces: Seq<Seq<char>>)
    requires
        forall|i: int| 0 <= i < pieces.len() ==> is_lower_text(#[trigger] pieces[i]),
    ensures
        is_lower_text(join(pieces)),
    decreases pieces.len(),
{
    if pieces.len() >= 2 {
        let before = pieces.drop_last();
        assert forall|i: int| 0 <= i < before.len() implies is_lower_text(
            #[trigger] before[i],
        ) by {
            assert(before[i] == pieces[i]);
        }
        lemma_join_lower(before);
        let whole = join(pieces);
        let head = join(before);
        assert(is_lower_text(pieces[pieces.len() - 1]));
        assert forall|k: int| 0 <= k < whole.len() implies !is_upper(#[trigger] whole[k]) by {
            if k < head.len() {
                assert(whole[k] == head[k]);
            } else if k == head.len() {
                assert(whole[k] == '.');
            } else {
                assert(whole[k] == pieces.last()[k - head.len() - 1]);
            }
        }
    } else if pieces.len() == 1 {
        assert(is_lower_text(pieces[0]));
    }
}

} // verus!
