//! Normalising one raw entry into a canonical domain name, or rejecting it.

use crate::aggregate::limits::{can_encode, encodable};
use crate::text::{
    alphanumeric, ascii_text, chars_of, domain_char, is_alphanumeric, is_ascii_text, is_digit,
    dot_free, is_domain_char, is_letter, is_lower, is_lower_text, is_upper, join,
    lemma_join_domain_chars, lemma_join_lower, lemma_join_split, lemma_split_lower, lemma_join_prefix, lemma_locate, lemma_piece_start_ordered, lemma_split_join,
    lemma_split_nonempty, lemma_split_pieces, letter, piece_start, pieces_of, split, split_chars,
    string_of, Separator,
};
use vstd::prelude::*;

verus! {

/// The longest label of a canonical domain, in characters.
pub const MAX_LABEL: usize = 63;

/// The most characters, dots not counted, that a canonical domain may have.
pub const MAX_NAME: usize = 255;

/// What `punycode::encode` returns for a label: the encoded label, without
/// the `xn--` in front, or nothing where the encoder gives up.
pub uninterp spec fn punycode_of(label: Seq<char>) -> Option<Seq<char>>;

/// The four characters in front of an encoded label.
pub open spec fn puny_prefix() -> Seq<char> {
    seq!['x', 'n', '-', '-']
}

/// A character that an encoding of `label` may hold: a lower-case letter, a
/// digit, a hyphen, or an ASCII character of the label itself.
pub open spec fn is_encoder_char(c: char, label: Seq<char>) -> bool {
    is_lower(c) || is_digit(c) || c == '-' || (c <= '\u{7f}' && label.contains(c))
}

/// Whether `e` is made of what an encoding of `label` may hold.
pub open spec fn is_encoding_of(e: Seq<char>, label: Seq<char>) -> bool {
    forall|i: int| 0 <= i < e.len() ==> is_encoder_char(#[trigger] e[i], label)
}

/// The text of a string that may be absent.
pub open spec fn text_of(s: Option<String>) -> Option<Seq<char>> {
    match s {
        Some(t) => Some(t@),
        None => None,
    }
}

/// What the encoder returned, if it is made of what an encoding of the
/// label may hold; nothing otherwise.
pub open spec fn checked_encoding(label: Seq<char>, encoded: Option<Seq<char>>) -> Option<
    Seq<char>,
> {
    match encoded {
        Some(e) => if is_encoding_of(e, label) {
            Some(e)
        } else {
            None
        },
        None => None,
    }
}

/// The label as it goes on: with `xn--` in front of its encoding, or
/// unchanged where it has none.
pub open spec fn prefixed_or_unchanged(label: Seq<char>, encoding: Option<Seq<char>>) -> Seq<
    char,
> {
    match encoding {
        Some(e) => puny_prefix() + e,
        None => label,
    }
}

/// The encoding that a label is given: none for an ASCII label, none for a
/// label that the encoder cannot encode within its 32 bits, and else what
/// the encoder returns, if that is made of what an encoding may hold.
pub open spec fn accepted_encoding(label: Seq<char>) -> Option<Seq<char>> {
    if is_ascii_text(label) || !can_encode(label) {
        None
    } else {
        checked_encoding(label, punycode_of(label))
    }
}

/// One label after encoding: an ASCII label is unchanged; another one
/// becomes `xn--` and its encoding, or stays unchanged where it has none.
pub open spec fn encode_label(label: Seq<char>) -> Seq<char> {
    prefixed_or_unchanged(label, accepted_encoding(label))
}

/// A label with characters outside ASCII that goes on unencoded, because
/// the encoder cannot encode it. No name is accepted that such a label has
/// a part in.
pub open spec fn is_unencoded(label: Seq<char>) -> bool {
    !is_ascii_text(label) && accepted_encoding(label) is None
}

/// The labels of a name, each of them encoded.
pub open spec fn encoded_labels(name: Seq<char>) -> Seq<Seq<char>> {
    split(name, Separator::Dot).map_values(|l: Seq<char>| encode_label(l))
}

/// A name with each of its labels encoded.
pub open spec fn encode_spec(name: Seq<char>) -> Seq<char> {
    join(encoded_labels(name))
}

/// Whether the encoded name is cut in a label that went on unencoded: its
/// first character that is no domain character stands in such a label.
pub open spec fn cut_in_unencoded(raw: Seq<char>) -> bool {
    exists|i: int|
        0 <= i < split(raw, Separator::Dot).len() && is_unencoded(
            #[trigger] split(raw, Separator::Dot)[i],
        ) && piece_start(encoded_labels(raw), i) <= valid_prefix_len(encode_spec(raw))
}

/// How many characters at the start of `s` are domain characters.
pub open spec fn valid_prefix_len(s: Seq<char>) -> int
    decreases s.len(),
{
    if s.len() == 0 || !is_domain_char(s.first()) {
        0
    } else {
        1 + valid_prefix_len(s.drop_first())
    }
}

/// `s` without one dot at its end, if it has one there.
pub open spec fn strip_dot(s: Seq<char>) -> Seq<char> {
    if s.len() > 0 && s.last() == '.' {
        s.drop_last()
    } else {
        s
    }
}

/// `s` cut before its first character that is no domain character, then
/// without one trailing dot.
pub open spec fn truncate_spec(s: Seq<char>) -> Seq<char> {
    strip_dot(s.take(valid_prefix_len(s)))
}

/// A label of a canonical domain: 1 to 63 letters, digits and hyphens, the
/// first a letter, the last a letter or digit.
pub open spec fn is_label(l: Seq<char>) -> bool {
    &&& 1 <= l.len() <= MAX_LABEL
    &&& is_letter(l.first())
    &&& is_alphanumeric(l.last())
    &&& forall|i: int| 0 <= i < l.len() ==> is_alphanumeric(#[trigger] l[i]) || l[i] == '-'
}

/// How many characters of `s` are not dots.
pub open spec fn non_dots(s: Seq<char>) -> nat
    decreases s.len(),
{
    if s.len() == 0 {
        0
    } else {
        non_dots(s.drop_last()) + if s.last() == '.' {
            0nat
        } else {
            1nat
        }
    }
}

/// A canonical domain: at least two labels, each of them a valid label, and
/// at most 255 characters besides the dots.
pub open spec fn is_canonical(d: Seq<char>) -> bool {
    let labels = split(d, Separator::Dot);
    &&& labels.len() >= 2
    &&& forall|i: int| 0 <= i < labels.len() ==> is_label(#[trigger] labels[i])
    &&& non_dots(d) <= MAX_NAME
}

/// The raw entry encoded and truncated.
pub open spec fn normalize_spec(raw: Seq<char>) -> Seq<char> {
    truncate_spec(encode_spec(raw))
}

/// The canonical domain that a raw entry stands for, if it stands for one:
/// the entry encoded and truncated, if that is a canonical domain and the
/// cut is in no label that went on unencoded.
pub open spec fn validate_spec(raw: Seq<char>) -> Option<Seq<char>> {
    if is_canonical(normalize_spec(raw)) && !cut_in_unencoded(raw) {
        Some(normalize_spec(raw))
    } else {
        None
    }
}

/// Calls `punycode::encode`, which encodes a label by RFC 3492. The
/// contract only names the result. Left out are the labels that the
/// encoder cannot encode within its 32 bits: on those it returns `Err(())`
/// or its counter runs over, and on no others (see `can_encode`).
#[verifier::external_body]
fn punycode(label: &str) -> (r: Option<String>)
    requires
        can_encode(label@),
    ensures
        text_of(r) == punycode_of(label@),
{
    punycode::encode(label).ok()
}

/// Whether `label` holds the character `c`.
fn holds(label: &Vec<char>, c: char) -> (r: bool)
    ensures
        r == label@.contains(c),
{
    let mut i: usize = 0;
    while i < label.len()
        invariant
            i <= label.len(),
            forall|j: int| 0 <= j < i ==> label@[j] != c,
        decreases label.len() - i,
    {
        if label[i] == c {
            return true;
        }
        i += 1;
    }
    false
}

/// What the encoder returned, if it is made of what an encoding of the
/// label may hold.
pub fn check_encoding(label: &Vec<char>, encoded: Option<String>) -> (r: Option<Vec<char>>)
    ensures
        match r {
            Some(e) => checked_encoding(label@, text_of(encoded)) == Some(e@),
            None => checked_encoding(label@, text_of(encoded)) is None,
        },
{
    match encoded {
        Some(text) => {
            let e = chars_of(text.as_str());
            let mut i: usize = 0;
            while i < e.len()
                invariant
                    i <= e.len(),
                    e@ == text@,
                    encoded == Some(text),
                    forall|j: int| 0 <= j < i ==> is_encoder_char(#[trigger] e@[j], label@),
                decreases e.len() - i,
            {
                let c = e[i];
                let plain = ('a' <= c && c <= 'z') || ('0' <= c && c <= '9') || c == '-';
                if !plain && !(c <= '\u{7f}' && holds(label, c)) {
                    assert(!is_encoder_char(e@[i as int], label@));
                    return None;
                }
                i += 1;
            }
            Some(e)
        },
        None => None,
    }
}

/// The label as it goes on: with `xn--` in front of its encoding, or
/// unchanged where it has none.
fn attach(label: Vec<char>, encoding: Option<Vec<char>>) -> (r: Vec<char>)
    ensures
        r@ == prefixed_or_unchanged(
            label@,
            match encoding {
                Some(e) => Some(e@),
                None => None,
            },
        ),
{
    match encoding {
        Some(mut e) => {
            let mut out: Vec<char> = vec!['x', 'n', '-', '-'];
            assert(out@ == puny_prefix());
            out.append(&mut e);
            out
        },
        None => label,
    }
}

/// The label as it goes on, given what the encoder returned for it: with
/// `xn--` in front of the encoding, or unchanged where the encoder returned
/// nothing, or something that no encoding of the label may hold.
pub fn with_prefix(label: Vec<char>, encoded: Option<String>) -> (r: Vec<char>)
    ensures
        r@ == prefixed_or_unchanged(label@, checked_encoding(label@, text_of(encoded))),
{
    let checked = check_encoding(&label, encoded);
    attach(label, checked)
}

/// Encodes one label, and says whether it went on unencoded.
fn encode_one(label: Vec<char>) -> (r: (Vec<char>, bool))
    ensures
        r.0@ == encode_label(label@),
        r.1 == is_unencoded(label@),
{
    if ascii_text(&label) {
        return (label, false);
    }
    if !encodable(&label) {
        return (label, true);
    }
    let text = string_of(&label);
    let checked = check_encoding(&label, punycode(text.as_str()));
    let unencoded = checked.is_none();
    (attach(label, checked), unencoded)
}

/// Encodes one label.
pub fn help_encode(label: Vec<char>) -> (r: Vec<char>)
    ensures
        r@ == encode_label(label@),
{
    encode_one(label).0
}

/// Where the first unencoded label of `name` begins in its encoded form,
/// if it has such a label.
spec fn guards(name: Seq<char>, guard: Option<usize>) -> bool {
    let labels = split(name, Separator::Dot);
    match guard {
        Some(s) => exists|k: int|
            0 <= k < labels.len() && is_unencoded(#[trigger] labels[k]) && s == piece_start(
                encoded_labels(name),
                k,
            ) && forall|h: int| 0 <= h < k ==> !is_unencoded(#[trigger] labels[h]),
        None => forall|h: int| 0 <= h < labels.len() ==> !is_unencoded(#[trigger] labels[h]),
    }
}

/// Encodes every label of a name and joins them with dots again; says
/// where the first label begins that went on unencoded.
fn encode_guarded(name: &Vec<char>) -> (r: (Vec<char>, Option<usize>))
    ensures
        r.0@ == encode_spec(name@),
        guards(name@, r.1),
{
    let mut labels = split_chars(name, Separator::Dot);
    proof {
        lemma_split_nonempty(name@, Separator::Dot);
    }
    let ghost raw = split(name@, Separator::Dot);
    let ghost encoded = encoded_labels(name@);
    let mut out: Vec<char> = Vec::new();
    let mut guard: Option<usize> = None;
    let mut i: usize = 0;
    while i < labels.len()
        invariant
            i <= labels.len(),
            labels.len() == encoded.len(),
            labels.len() >= 1,
            raw == split(name@, Separator::Dot),
            encoded == encoded_labels(name@),
            forall|j: int| i <= j < labels.len() ==> (#[trigger] labels@[j])@ == raw[j],
            out@ == join(encoded.take(i as int)),
            match guard {
                Some(s) => exists|k: int|
                    0 <= k < i && is_unencoded(#[trigger] raw[k]) && s == piece_start(encoded, k)
                        && forall|h: int| 0 <= h < k ==> !is_unencoded(#[trigger] raw[h]),
                None => forall|h: int| 0 <= h < i ==> !is_unencoded(#[trigger] raw[h]),
            },
        decreases labels.len() - i,
    {
        let mut label: Vec<char> = Vec::new();
        std::mem::swap(&mut label, &mut labels[i]);
        let (mut piece, unencoded) = encode_one(label);
        proof {
            let upto = encoded.take(i + 1);
            assert(upto.drop_last() == encoded.take(i as int));
            assert(upto.last() == piece@);
            if i > 0 {
                assert(encoded.take(i as int).len() >= 1);
            }
        }
        if i > 0 {
            out.push('.');
        }
        if unencoded && guard.is_none() {
            assert(out@.len() == piece_start(encoded, i as int));
            guard = Some(out.len());
        }
        out.append(&mut piece);
        i += 1;
    }
    assert(encoded.take(encoded.len() as int) == encoded);
    (out, guard)
}

/// Encodes every label of a name and joins them with dots again.
pub fn encode_chars(name: &Vec<char>) -> (r: Vec<char>)
    ensures
        r@ == encode_spec(name@),
{
    encode_guarded(name).0
}

/// Where the domain characters at the start of `s` end: `n` is that place if
/// all before it are domain characters and the one at `n`, if any, is not.
pub proof fn lemma_valid_prefix_len(s: Seq<char>, n: int)
    requires
        0 <= n <= s.len(),
        forall|j: int| 0 <= j < n ==> is_domain_char(#[trigger] s[j]),
        n < s.len() ==> !is_domain_char(s[n]),
    ensures
        valid_prefix_len(s) == n,
    decreases n,
{
    if n > 0 {
        let rest = s.drop_first();
        assert forall|j: int| 0 <= j < n - 1 implies is_domain_char(#[trigger] rest[j]) by {
            assert(rest[j] == s[j + 1]);
        }
        if n - 1 < rest.len() {
            assert(rest[n - 1] == s[n]);
        }
        lemma_valid_prefix_len(rest, n - 1);
    }
}

/// Cuts a name before its first character that is no domain character, and
/// takes one trailing dot away.
pub fn truncate_chars(raw: &Vec<char>) -> (r: Vec<char>)
    ensures
        r@ == truncate_spec(raw@),
{
    let mut out: Vec<char> = Vec::new();
    let mut i: usize = 0;
    while i < raw.len() && domain_char(raw[i])
        invariant
            i <= raw.len(),
            out@ == raw@.take(i as int),
            forall|j: int| 0 <= j < i ==> is_domain_char(#[trigger] raw@[j]),
        decreases raw.len() - i,
    {
        out.push(raw[i]);
        i += 1;
    }
    proof {
        lemma_valid_prefix_len(raw@, i as int);
    }
    let n = out.len();
    if n > 0 && out[n - 1] == '.' {
        out.pop();
    }
    out
}

/// Whether `l` is a valid label.
pub fn label(l: &Vec<char>) -> (r: bool)
    ensures
        r == is_label(l@),
{
    let n = l.len();
    if n < 1 || n > MAX_LABEL {
        return false;
    }
    if !letter(l[0]) || !alphanumeric(l[n - 1]) {
        return false;
    }
    let mut i: usize = 0;
    while i < n
        invariant
            i <= n,
            n == l.len(),
            forall|j: int| 0 <= j < i ==> is_alphanumeric(#[trigger] l@[j]) || l@[j] == '-',
        decreases n - i,
    {
        if !alphanumeric(l[i]) && l[i] != '-' {
            return false;
        }
        i += 1;
    }
    true
}

/// Whether `d` has at most `MAX_NAME` characters that are not dots.
fn short_enough(d: &Vec<char>) -> (r: bool)
    ensures
        r == (non_dots(d@) <= MAX_NAME),
{
    let mut count: usize = 0;
    let mut i: usize = 0;
    while i < d.len()
        invariant
            i <= d.len(),
            count == non_dots(d@.take(i as int)),
            count <= i,
        decreases d.len() - i,
    {
        proof {
            assert(d@.take(i + 1).drop_last() == d@.take(i as int));
        }
        if d[i] != '.' {
            count += 1;
        }
        i += 1;
    }
    assert(d@.take(d@.len() as int) == d@);
    count <= MAX_NAME
}

/// Whether `d` is a canonical domain.
pub fn canonical(d: &Vec<char>) -> (r: bool)
    ensures
        r == is_canonical(d@),
{
    let labels = split_chars(d, Separator::Dot);
    if labels.len() < 2 {
        return false;
    }
    let mut i: usize = 0;
    while i < labels.len()
        invariant
            i <= labels.len(),
            pieces_of(labels@) == split(d@, Separator::Dot),
            forall|j: int| 0 <= j < i ==> is_label(#[trigger] split(d@, Separator::Dot)[j]),
        decreases labels.len() - i,
    {
        assert(pieces_of(labels@)[i as int] == labels@[i as int]@);
        if !label(&labels[i]) {
            return false;
        }
        i += 1;
    }
    short_enough(d)
}

/// How many characters at the start of `s` are domain characters.
fn valid_len(s: &Vec<char>) -> (r: usize)
    ensures
        r == valid_prefix_len(s@),
{
    let mut i: usize = 0;
    while i < s.len() && domain_char(s[i])
        invariant
            i <= s.len(),
            forall|j: int| 0 <= j < i ==> is_domain_char(#[trigger] s@[j]),
        decreases s.len() - i,
    {
        i += 1;
    }
    proof {
        lemma_valid_prefix_len(s@, i as int);
    }
    i
}

/// The canonical domain that a raw entry stands for, if it stands for one.
pub fn validate_chars(raw: &Vec<char>) -> (r: Option<Vec<char>>)
    ensures
        match r {
            Some(d) => validate_spec(raw@) == Some(d@),
            None => validate_spec(raw@) is None,
        },
{
    let (encoded, guard) = encode_guarded(raw);
    let cut = valid_len(&encoded);
    let blocked = match guard {
        Some(start) => start <= cut,
        None => false,
    };
    proof {
        let labels = split(raw@, Separator::Dot);
        let pieces = encoded_labels(raw@);
        if cut_in_unencoded(raw@) {
            let i = choose|i: int|
                0 <= i < labels.len() && is_unencoded(#[trigger] labels[i]) && piece_start(
                    pieces,
                    i,
                ) <= cut;
            let k = choose|k: int|
                0 <= k < labels.len() && is_unencoded(#[trigger] labels[k]) && guard->0
                    == piece_start(pieces, k) && forall|h: int|
                    0 <= h < k ==> !is_unencoded(#[trigger] labels[h]);
            lemma_piece_start_ordered(pieces, k, i);
        }
        assert(blocked == cut_in_unencoded(raw@));
    }
    if blocked {
        return None;
    }
    let d = truncate_chars(&encoded);
    if canonical(&d) {
        Some(d)
    } else {
        None
    }
}

/// Encodes the non-ASCII labels of a name: each becomes `xn--` followed by
/// its punycode. ASCII labels, and labels that the encoder does not take,
/// stay as they are.
pub fn encode(decoded: &str) -> (r: String)
    ensures
        r@ == encode_spec(decoded@),
{
    string_of(&encode_chars(&chars_of(decoded)))
}

/// Cuts a name before its first character that is neither an ASCII letter or
/// digit nor a hyphen or dot, and takes one trailing dot away.
pub fn truncate(raw: String) -> (r: String)
    ensures
        r@ == truncate_spec(raw@),
{
    string_of(&truncate_chars(&chars_of(raw.as_str())))
}

/// The canonical domain that a raw entry stands for: the entry encoded and
/// truncated, if that is a canonical domain, and nothing otherwise. There
/// is nothing either where the entry is cut in a label that has characters
/// outside ASCII and could not be encoded.
pub fn validate(domain: &str) -> (r: Option<String>)
    ensures
        match r {
            Some(d) => validate_spec(domain@) == Some(d@),
            None => validate_spec(domain@) is None,
        },
{
    match validate_chars(&chars_of(domain)) {
        Some(d) => Some(string_of(&d)),
        None => None,
    }
}

/// A canonical domain holds domain characters only, and no dot at its end.
pub proof fn lemma_canonical_chars(d: Seq<char>)
    requires
        is_canonical(d),
    ensures
        forall|k: int| 0 <= k < d.len() ==> is_domain_char(#[trigger] d[k]),
        d.len() > 0,
        d.last() != '.',
{
    let labels = split(d, Separator::Dot);
    lemma_join_split(d);
    assert forall|i: int, j: int|
        0 <= i < labels.len() && 0 <= j < labels[i].len() implies is_domain_char(
        #[trigger] labels[i][j],
    ) by {
        assert(is_label(labels[i]));
    }
    lemma_join_domain_chars(labels);
    assert(is_label(labels.last()));
    assert(join(labels) == join(labels.drop_last()) + seq!['.'] + labels.last());
    assert(join(labels).last() == labels.last().last());
}

/// Normalising a canonical domain changes nothing.
pub proof fn lemma_canonical_is_fixed(d: Seq<char>)
    requires
        is_canonical(d),
    ensures
        encode_spec(d) == d,
        truncate_spec(d) == d,
        validate_spec(d) == Some(d),
{
    let labels = split(d, Separator::Dot);
    let encoded = encoded_labels(d);
    assert forall|i: int| 0 <= i < labels.len() implies encoded[i] == labels[i]
        && !is_unencoded(labels[i]) by {
        assert(is_label(labels[i]));
        assert forall|j: int| 0 <= j < labels[i].len() implies #[trigger] labels[i][j]
            <= '\u{7f}' by {
            assert(is_alphanumeric(labels[i][j]) || labels[i][j] == '-');
        }
    }
    assert(encoded == labels);
    lemma_join_split(d);
    lemma_canonical_chars(d);
    lemma_valid_prefix_len(d, d.len() as int);
    assert(d.take(d.len() as int) == d);
}

/// `validate` is idempotent: a domain that it has returned is returned
/// unchanged when it is validated again.
pub proof fn lemma_validate_idempotent(raw: Seq<char>)
    ensures
        validate_spec(raw) matches Some(d) ==> validate_spec(d) == validate_spec(raw),
{
    if is_canonical(normalize_spec(raw)) {
        lemma_canonical_is_fixed(normalize_spec(raw));
    }
}

/// Encoding leaves an ASCII label as it is, and a label with other
/// characters either as it is or with `xn--` in front.
pub proof fn lemma_encoded_label(label: Seq<char>)
    ensures
        is_ascii_text(label) ==> encode_label(label) == label,
        is_unencoded(label) ==> encode_label(label) == label,
        !is_ascii_text(label) && !is_unencoded(label) ==> encode_label(label).len() >= 4
            && encode_label(label).take(4) == puny_prefix(),
{
    match accepted_encoding(label) {
        Some(e) => {
            assert((puny_prefix() + e).take(4) == puny_prefix());
        },
        None => {},
    }
}

/// What `validate` returns holds ASCII letters, digits, hyphens and dots
/// only, and is the beginning of the entry's encoded form, in which each
/// label is as `lemma_encoded_label` says: an ASCII label unchanged,
/// another one unchanged or with `xn--` in front.
pub proof fn lemma_validated_form(raw: Seq<char>)
    ensures
        validate_spec(raw) matches Some(d) ==> {
            &&& is_ascii_text(d)
            &&& forall|k: int| 0 <= k < d.len() ==> is_domain_char(#[trigger] d[k])
            &&& d.is_prefix_of(encode_spec(raw))
        },
{
    if is_canonical(normalize_spec(raw)) {
        let d = normalize_spec(raw);
        lemma_canonical_chars(d);
        assert forall|k: int| 0 <= k < d.len() implies #[trigger] d[k] <= '\u{7f}' by {
            assert(is_domain_char(d[k]));
        }
        let e = encode_spec(raw);
        lemma_valid_prefix(e);
        let cut = e.take(valid_prefix_len(e));
        assert(cut.is_prefix_of(e));
        assert(d.is_prefix_of(cut));
    }
}

/// The domain characters at the start of `s` end before its first
/// character that is none.
pub proof fn lemma_valid_prefix(s: Seq<char>)
    ensures
        0 <= valid_prefix_len(s) <= s.len(),
        forall|j: int| 0 <= j < valid_prefix_len(s) ==> is_domain_char(#[trigger] s[j]),
        valid_prefix_len(s) < s.len() ==> !is_domain_char(s[valid_prefix_len(s)]),
    decreases s.len(),
{
    if !(s.len() == 0 || !is_domain_char(s.first())) {
        let rest = s.drop_first();
        lemma_valid_prefix(rest);
        assert forall|j: int| 0 <= j < valid_prefix_len(s) implies is_domain_char(
            #[trigger] s[j],
        ) by {
            if j > 0 {
                assert(s[j] == rest[j - 1]);
            }
        }
        if valid_prefix_len(s) < s.len() {
            assert(s[valid_prefix_len(s)] == rest[valid_prefix_len(rest)]);
        }
    }
}

/// No encoded label holds a dot.
pub proof fn lemma_encoded_dot_free(raw: Seq<char>)
    ensures
        dot_free(encoded_labels(raw)),
{
    let labels = split(raw, Separator::Dot);
    let pieces = encoded_labels(raw);
    lemma_split_pieces(raw, Separator::Dot);
    assert forall|i: int, j: int|
        0 <= i < pieces.len() && 0 <= j < pieces[i].len() implies #[trigger] pieces[i][j]
        != '.' by {
        let label = labels[i];
        match accepted_encoding(label) {
            Some(e) => {
                if j >= 4 {
                    assert(pieces[i][j] == e[j - 4]);
                    assert(is_encoder_char(e[j - 4], label));
                    if label.contains(e[j - 4]) {
                        let m = choose|m: int| 0 <= m < label.len() && label[m] == e[j - 4];
                        assert(!Separator::Dot.matches(labels[i][m]));
                    }
                } else {
                    assert(pieces[i][j] == puny_prefix()[j]);
                }
            },
            None => {
                assert(pieces[i][j] == labels[i][j]);
                assert(!Separator::Dot.matches(labels[i][j]));
            },
        }
    }
}

/// The labels of what `validate` returns, one by one. Each of them comes
/// from the label of the entry at the same place, and none from a label
/// that went on unencoded. It is the beginning of that label's encoded
/// form, and all of it except where the entry was cut: an ASCII label
/// comes back unchanged or cut, any other with `xn--` in front.
pub proof fn lemma_validated_labels(raw: Seq<char>, i: int)
    requires
        validate_spec(raw) is Some,
        0 <= i < split(validate_spec(raw)->0, Separator::Dot).len(),
    ensures
        i < split(raw, Separator::Dot).len(),
        ({
            let had = split(raw, Separator::Dot)[i];
            let has = split(validate_spec(raw)->0, Separator::Dot)[i];
            &&& !is_unencoded(had)
            &&& has.is_prefix_of(encode_label(had))
            &&& i + 1 < split(validate_spec(raw)->0, Separator::Dot).len() ==> has == encode_label(
                had,
            )
            &&& is_ascii_text(had) ==> has.is_prefix_of(had)
            &&& !is_ascii_text(had) ==> has.len() >= 4 && has.take(4) == puny_prefix()
        }),
{
    let labels = split(raw, Separator::Dot);
    let pieces = encoded_labels(raw);
    let e = encode_spec(raw);
    let cut = valid_prefix_len(e);
    let c = normalize_spec(raw);
    lemma_split_nonempty(raw, Separator::Dot);
    lemma_valid_prefix(e);
    lemma_encoded_dot_free(raw);
    let (k, j) = lemma_locate(pieces, cut);
    lemma_join_prefix(pieces, k, j);
    let part = pieces.take(k).push(pieces[k].take(j));
    let t = e.take(cut);
    assert(dot_free(part)) by {
        assert forall|a: int, b: int|
            0 <= a < part.len() && 0 <= b < part[a].len() implies #[trigger] part[a][b]
            != '.' by {
            if a < k {
                assert(part[a][b] == pieces[a][b]);
            } else {
                assert(part[a][b] == pieces[k][b]);
            }
        }
    }
    lemma_split_join(part);
    assert(split(t, Separator::Dot) == part);
    if t.len() > 0 && t.last() == '.' {
        assert(split(t, Separator::Dot) == split(t.drop_last(), Separator::Dot).push(
            Seq::<char>::empty(),
        ));
        assert(split(c, Separator::Dot) == part.drop_last());
        assert(part.drop_last() == pieces.take(k));
        assert(i < k);
    } else {
        assert(split(c, Separator::Dot) == part);
        assert(i <= k);
    }
    let had = labels[i];
    let has = split(c, Separator::Dot)[i];
    assert(!is_unencoded(had)) by {
        if is_unencoded(had) {
            lemma_piece_start_ordered(pieces, i, k);
            assert(cut_in_unencoded(raw));
        }
    }
    lemma_encoded_label(had);
    assert(pieces[i] == encode_label(had));
    if has != pieces[i] {
        assert(i == k && has == pieces[k].take(j));
        if !is_ascii_text(had) {
            if j < 4 {
                lemma_join_prefix(pieces, k, pieces[k].len() as int);
                lemma_join_prefix(pieces, k, j + 1);
                let more = pieces.take(k).push(pieces[k].take(j + 1));
                assert(more.last().last() == pieces[k][j]);
                assert(join(more).last() == pieces[k][j]) by {
                    if more.len() >= 2 {
                        assert(join(more) == join(more.drop_last()) + seq!['.'] + more.last());
                    }
                }
                assert(e.take(cut + 1).last() == e[cut]);
                assert(pieces[k][j] == puny_prefix()[j]) by {
                    assert(pieces[k].take(4) == puny_prefix());
                    assert(pieces[k].take(4)[j] == pieces[k][j]);
                }
                assert(is_domain_char(e[cut]));
            }
            assert(has.take(4) == pieces[k].take(4));
        }
    }
}

/// `validate` brings in no upper-case letter: what it returns for an entry
/// without ASCII upper-case letters has none.
pub proof fn lemma_validated_lower(raw: Seq<char>)
    requires
        is_lower_text(raw),
    ensures
        validate_spec(raw) matches Some(d) ==> is_lower_text(d),
{
    let labels = split(raw, Separator::Dot);
    let pieces = encoded_labels(raw);
    lemma_split_lower(raw, Separator::Dot);
    assert forall|i: int| 0 <= i < pieces.len() implies is_lower_text(#[trigger] pieces[i]) by {
        let label = labels[i];
        assert(is_lower_text(label));
        match accepted_encoding(label) {
            Some(e) => {
                assert forall|j: int| 0 <= j < pieces[i].len() implies !is_upper(
                    #[trigger] pieces[i][j],
                ) by {
                    if j >= 4 {
                        assert(pieces[i][j] == e[j - 4]);
                        assert(is_encoder_char(e[j - 4], label));
                        if label.contains(e[j - 4]) {
                            let m = choose|m: int| 0 <= m < label.len() && label[m] == e[j - 4];
                            assert(!is_upper(label[m]));
                        }
                    } else {
                        assert(pieces[i][j] == puny_prefix()[j]);
                    }
                }
            },
            None => {},
        }
    }
    lemma_join_lower(pieces);
    let e = encode_spec(raw);
    lemma_valid_prefix(e);
    let d = normalize_spec(raw);
    assert forall|j: int| 0 <= j < d.len() implies !is_upper(#[trigger] d[j]) by {
        assert(d[j] == e[j]);
    }
}

} // verus!
