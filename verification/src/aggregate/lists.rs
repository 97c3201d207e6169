//! Parsing fetched bodies into sets of domains, filtering them against the
//! whitelists and expanding them into the lines of an addlist.

use crate::aggregate::data::{names_of, Addlist, AddlistConfig, DomainSet};
use crate::aggregate::validation::{is_canonical, validate_chars, validate_spec};
use crate::order::{
    by_code_points, is_listing, lemma_listing_unique, lemma_rearranged, sorted_listing,
};
use crate::aggregate::validation::lemma_validated_lower;
use crate::text::{
    chars_of, is_lower_text, is_upper, lemma_split_concat_len, lemma_split_lower, pieces_of, split,
    split_chars, string_of, Separator,
};
use itertools::Itertools;
use vstd::prelude::*;
use vstd::relations::sorted_by;
use vstd::string::StringExecFns;

verus! {

/// What `str::to_lowercase` returns for a text: its lowercase form by the
/// Unicode rules.
pub uninterp spec fn lowercase_of(text: Seq<char>) -> Seq<char>;

/// Calls `str::to_lowercase`. The contract names the result, and says of
/// it that a lowercase form holds no ASCII upper-case letter.
#[verifier::external_body]
fn lowercase(text: &str) -> (r: String)
    ensures
        r@ == lowercase_of(text@),
        is_lower_text(r@),
{
    text.to_lowercase()
}

/// Whether a response with that status is taken as a body: only one with
/// status 200 is.
pub fn accepted(status: u16) -> (r: bool)
    ensures
        r == (status == 200),
{
    status == 200
}

/// Every domain of the set is canonical and holds no ASCII upper-case
/// letter.
pub open spec fn all_lower_canonical(domains: Set<Seq<char>>) -> bool {
    forall|d: Seq<char>| domains.contains(d) ==> is_canonical(d) && is_lower_text(d)
}

/// How many characters of a line stand before its comment: before the
/// first `#`, or all where it has none.
pub open spec fn code_len(line: Seq<char>) -> int
    decreases line.len(),
{
    if line.len() == 0 || line.first() == '#' {
        0
    } else {
        1 + code_len(line.drop_first())
    }
}

/// The line without its comment.
pub open spec fn strip_comment(line: Seq<char>) -> Seq<char> {
    line.take(code_len(line))
}

/// The domains that the given words stand for.
pub open spec fn domains_of_words(words: Seq<Seq<char>>) -> Set<Seq<char>>
    decreases words.len(),
{
    if words.len() == 0 {
        Set::empty()
    } else {
        let before = domains_of_words(words.drop_last());
        match validate_spec(words.last()) {
            Some(d) => before.insert(d),
            None => before,
        }
    }
}

/// The domains of one line: of the words, parted by white space, that stand
/// before its comment.
pub open spec fn domains_of_line(line: Seq<char>) -> Set<Seq<char>> {
    domains_of_words(split(strip_comment(line), Separator::Whitespace))
}

/// The domains of the given lines.
pub open spec fn domains_of_lines(lines: Seq<Seq<char>>) -> Set<Seq<char>>
    decreases lines.len(),
{
    if lines.len() == 0 {
        Set::empty()
    } else {
        domains_of_lines(lines.drop_last()).union(domains_of_line(lines.last()))
    }
}

/// The domains of a text that is in lower case already.
pub open spec fn domains_in(text: Seq<char>) -> Set<Seq<char>> {
    domains_of_lines(split(text, Separator::Newline))
}

/// The domains of a fetched body: those of its lowercase form.
pub open spec fn parse_spec(body: Seq<char>) -> Set<Seq<char>> {
    domains_in(lowercase_of(body))
}

/// Where the comment of a line begins: `n` is that place if no `#` stands
/// before it and one stands at `n`, if anything does.
pub proof fn lemma_code_len(line: Seq<char>, n: int)
    requires
        0 <= n <= line.len(),
        forall|j: int| 0 <= j < n ==> #[trigger] line[j] != '#',
        n < line.len() ==> line[n] == '#',
    ensures
        code_len(line) == n,
    decreases n,
{
    if n > 0 {
        let rest = line.drop_first();
        assert forall|j: int| 0 <= j < n - 1 implies #[trigger] rest[j] != '#' by {
            assert(rest[j] == line[j + 1]);
        }
        if n - 1 < rest.len() {
            assert(rest[n - 1] == line[n]);
        }
        lemma_code_len(rest, n - 1);
    }
}

/// The line without its comment.
pub fn without_comment(line: &Vec<char>) -> (r: Vec<char>)
    ensures
        r@ == strip_comment(line@),
{
    let mut out: Vec<char> = Vec::new();
    let mut i: usize = 0;
    while i < line.len() && line[i] != '#'
        invariant
            i <= line.len(),
            out@ == line@.take(i as int),
            forall|j: int| 0 <= j < i ==> #[trigger] line@[j] != '#',
        decreases line.len() - i,
    {
        out.push(line[i]);
        i += 1;
    }
    proof {
        lemma_code_len(line@, i as int);
    }
    out
}

/// Puts the domains of one line into `set`.
fn collect_line(line: &Vec<char>, set: &mut DomainSet)
    ensures
        final(set)@ == old(set)@.union(domains_of_line(line@)),
{
    let words = split_chars(&without_comment(line), Separator::Whitespace);
    let ghost all = split(strip_comment(line@), Separator::Whitespace);
    let mut j: usize = 0;
    while j < words.len()
        invariant
            j <= words.len(),
            pieces_of(words@) == all,
            set@ == old(set)@.union(domains_of_words(all.take(j as int))),
        decreases words.len() - j,
    {
        proof {
            assert(all.take(j + 1).drop_last() == all.take(j as int));
            assert(all.take(j + 1).last() == words@[j as int]@);
        }
        match validate_chars(&words[j]) {
            Some(d) => {
                set.insert(string_of(&d));
            },
            None => {},
        }
        assert(set@ =~= old(set)@.union(domains_of_words(all.take(j + 1))));
        j += 1;
    }
    assert(all.take(all.len() as int) == all);
}

/// Puts the domains of a text that is in lower case already into `set`.
fn collect_text(text: &str, set: &mut DomainSet)
    ensures
        final(set)@ == old(set)@.union(domains_in(text@)),
{
    let lines = split_chars(&chars_of(text), Separator::Newline);
    let ghost all = split(text@, Separator::Newline);
    let mut i: usize = 0;
    assert(set@ =~= old(set)@.union(domains_of_lines(all.take(0))));
    while i < lines.len()
        invariant
            i <= lines.len(),
            pieces_of(lines@) == all,
            set@ == old(set)@.union(domains_of_lines(all.take(i as int))),
        decreases lines.len() - i,
    {
        proof {
            assert(all.take(i + 1).drop_last() == all.take(i as int));
            assert(all.take(i + 1).last() == lines@[i as int]@);
        }
        collect_line(&lines[i], set);
        assert(set@ =~= old(set)@.union(domains_of_lines(all.take(i + 1))));
        i += 1;
    }
    assert(all.take(all.len() as int) == all);
}

/// The domains of a text that is in lower case already: of each line, the
/// words before the first `#` that stand for a canonical domain.
pub fn parse_lines(text: &str) -> (r: DomainSet)
    ensures
        r@ == domains_in(text@),
{
    let mut set = DomainSet::new();
    collect_text(text, &mut set);
    assert(set@ =~= domains_in(text@));
    set
}

/// The domains of a fetched body. The body is put in lower case; of each
/// line, what follows the first `#` is dropped, and the words that are left
/// are validated. The set holds the domains of the words that passed: all
/// of them canonical and in lower case.
pub fn parse(raw_data: String) -> (r: DomainSet)
    ensures
        r@ == parse_spec(raw_data@),
        all_lower_canonical(r@),
{
    let lower = lowercase(raw_data.as_str());
    proof {
        lemma_domains_lower(lower@);
    }
    parse_lines(lower.as_str())
}

/// The domains of the given bodies together.
pub open spec fn domains_of_bodies(bodies: Seq<Seq<char>>) -> Set<Seq<char>>
    decreases bodies.len(),
{
    if bodies.len() == 0 {
        Set::empty()
    } else {
        domains_of_bodies(bodies.drop_last()).union(parse_spec(bodies.last()))
    }
}

/// The domains of the given bodies together: all of them canonical and in
/// lower case.
pub fn gather(bodies: &Vec<String>) -> (r: DomainSet)
    ensures
        r@ == domains_of_bodies(names_of(bodies@)),
        all_lower_canonical(r@),
{
    let ghost all = names_of(bodies@);
    let mut set = DomainSet::new();
    let mut i: usize = 0;
    while i < bodies.len()
        invariant
            i <= bodies.len(),
            all == names_of(bodies@),
            set@ == domains_of_bodies(all.take(i as int)),
            all_lower_canonical(set@),
        decreases bodies.len() - i,
    {
        proof {
            assert(all.take(i + 1).drop_last() == all.take(i as int));
            assert(all.take(i + 1).last() == bodies@[i as int]@);
        }
        let lower = lowercase(bodies[i].as_str());
        proof {
            lemma_domains_lower(lower@);
        }
        collect_text(lower.as_str(), &mut set);
        i += 1;
    }
    assert(all.take(all.len() as int) == all);
    set
}

/// A whitelist from the bodies of its sources: the domains of all of them
/// together. Without sources there is no whitelist, which is not the same
/// as an empty one.
pub fn whitelist(bodies: Option<Vec<String>>) -> (r: Option<DomainSet>)
    ensures
        match r {
            Some(w) => bodies is Some && w@ == domains_of_bodies(names_of(bodies->0@))
                && all_lower_canonical(w@),
            None => bodies is None,
        },
{
    match bodies {
        Some(bodies) => Some(gather(&bodies)),
        None => None,
    }
}

/// The domains that stay in an addlist: those found in its sources that are
/// neither in the global whitelist nor in what the global whitelist leaves
/// of the local one.
pub open spec fn surviving(
    found: Set<Seq<char>>,
    global: Set<Seq<char>>,
    local: Set<Seq<char>>,
) -> Set<Seq<char>> {
    found.difference(global).difference(local.difference(global))
}

/// The domains of a local whitelist, none where there is no such whitelist.
pub open spec fn local_domains(bodies: Option<Seq<Seq<char>>>) -> Set<Seq<char>> {
    match bodies {
        Some(b) => domains_of_bodies(b),
        None => Set::empty(),
    }
}

/// The lines of the addlist that the given bodies make up.
pub open spec fn addlist_spec(
    prefix: Seq<char>,
    suffix: Seq<char>,
    sources: Seq<Seq<char>>,
    local: Option<Seq<Seq<char>>>,
    global: Set<Seq<char>>,
) -> Seq<Seq<char>> {
    mutate_spec(prefix, suffix, surviving(domains_of_bodies(sources), global, local_domains(local)))
}

/// The addlist of the given name from the bodies of its sources and of its
/// local whitelist's sources. The domains of the sources that neither
/// whitelist holds are expanded and listed in order.
pub fn addlist(
    config: &AddlistConfig,
    global_whitelist: &DomainSet,
    bodies: Vec<String>,
    whitelist_bodies: Option<Vec<String>>,
) -> (r: Addlist)
    ensures
        r.name@ == config.name@,
        names_of(r.list@) == addlist_spec(
            config.config.prefix_spec(),
            config.config.suffix_spec(),
            names_of(bodies@),
            match whitelist_bodies {
                Some(l) => Some(names_of(l@)),
                None => None,
            },
            global_whitelist@,
        ),
{
    let local = match whitelist(whitelist_bodies) {
        Some(local) => local,
        None => DomainSet::new(),
    };
    let reduced = local.difference(global_whitelist);
    let data = gather(&bodies).difference(global_whitelist).difference(&reduced);
    Addlist { list: mutate(config, data), name: config.name.clone() }
}

/// The label and dot that mark the `www` form of a domain.
pub open spec fn www() -> Seq<char> {
    seq!['w', 'w', 'w', '.']
}

/// Whether a name begins with `www.`.
pub open spec fn has_www(d: Seq<char>) -> bool {
    d.len() >= 4 && d.take(4) == www()
}

/// How many labels a name has: one more than it has dots.
pub open spec fn label_count(d: Seq<char>) -> nat {
    split(d, Separator::Dot).len()
}

/// The bare form of a domain: a name of three labels that begins with
/// `www.` loses that label; any other name stays as it is.
pub open spec fn collapse(d: Seq<char>) -> Seq<char> {
    if label_count(d) == 3 && has_www(d) {
        d.skip(4)
    } else {
        d
    }
}

/// Whether a name gets a `www.` companion: it has two labels and does not
/// begin with `www.`.
pub open spec fn gains_companion(d: Seq<char>) -> bool {
    label_count(d) == 2 && !has_www(d)
}

/// The name with `www.` in front.
pub open spec fn companion_of(d: Seq<char>) -> Seq<char> {
    www() + d
}

/// `collapse` as a function value.
pub open spec fn collapse_fn() -> spec_fn(Seq<char>) -> Seq<char> {
    |d: Seq<char>| collapse(d)
}

/// `gains_companion` as a function value.
pub open spec fn gains_fn() -> spec_fn(Seq<char>) -> bool {
    |d: Seq<char>| gains_companion(d)
}

/// `companion_of` as a function value.
pub open spec fn companion_fn() -> spec_fn(Seq<char>) -> Seq<char> {
    |d: Seq<char>| companion_of(d)
}

/// The bare forms of the given domains.
pub open spec fn bare_forms(domains: Set<Seq<char>>) -> Set<Seq<char>> {
    domains.map(collapse_fn())
}

/// The companions of those of the given names that get one.
pub open spec fn companions(bare: Set<Seq<char>>) -> Set<Seq<char>> {
    bare.filter(gains_fn()).map(companion_fn())
}

/// The domains of an addlist: the bare forms of the given domains, and the
/// companions of the bare forms.
pub open spec fn expand(domains: Set<Seq<char>>) -> Set<Seq<char>> {
    bare_forms(domains).union(companions(bare_forms(domains)))
}

/// Each name between the prefix and the suffix.
pub open spec fn decorate(names: Seq<Seq<char>>, prefix: Seq<char>, suffix: Seq<char>) -> Seq<
    Seq<char>,
> {
    Seq::new(names.len(), |i: int| prefix + names[i] + suffix)
}

/// The lines of an addlist: its domains in ascending order, each once,
/// between the prefix and the suffix.
pub open spec fn mutate_spec(prefix: Seq<char>, suffix: Seq<char>, domains: Set<Seq<char>>) -> Seq<
    Seq<char>,
> {
    decorate(sorted_listing(expand(domains)), prefix, suffix)
}

/// The names of `s` in the order in which they first occur, each once.
pub open spec fn first_occurrences(s: Seq<Seq<char>>) -> Seq<Seq<char>>
    decreases s.len(),
{
    if s.len() == 0 {
        s
    } else if s.drop_last().contains(s.last()) {
        first_occurrences(s.drop_last())
    } else {
        first_occurrences(s.drop_last()).push(s.last())
    }
}

/// Calls `Itertools::unique`, which hands on each item that has not come
/// before and drops the others: what is left are the first occurrences, in
/// their order.
#[verifier::external_body]
fn unique_names(names: Vec<String>) -> (r: Vec<String>)
    ensures
        names_of(r@) == first_occurrences(names_of(names@)),
{
    names.into_iter().unique().collect()
}

/// Calls `Itertools::sorted`, which sorts the items in ascending order with
/// `slice::sort`: the result holds the same strings as often, in the order
/// of `String`, which is the lexicographic order of the code points.
#[verifier::external_body]
fn sorted_names(names: Vec<String>) -> (r: Vec<String>)
    ensures
        names_of(r@).to_multiset() == names_of(names@).to_multiset(),
        sorted_by(names_of(r@), by_code_points()),
{
    names.into_iter().sorted().collect()
}

/// The first occurrences of a sequence hold each of its names once.
pub proof fn lemma_first_occurrences(s: Seq<Seq<char>>)
    ensures
        first_occurrences(s).no_duplicates(),
        first_occurrences(s).to_set() == s.to_set(),
    decreases s.len(),
{
    if s.len() == 0 {
    } else {
        let before = s.drop_last();
        lemma_first_occurrences(before);
        assert(s == before.push(s.last()));
        before.lemma_push_to_set_commute(s.last());
        let kept = first_occurrences(before);
        if before.contains(s.last()) {
            assert(before.to_set().contains(s.last()));
            assert(before.to_set().insert(s.last()) =~= before.to_set());
        } else {
            kept.lemma_push_to_set_commute(s.last());
            assert(!kept.contains(s.last())) by {
                if kept.contains(s.last()) {
                    assert(kept.to_set().contains(s.last()));
                    assert(before.to_set().contains(s.last()));
                }
            }
            let now = kept.push(s.last());
            assert forall|i: int, j: int|
                0 <= i < now.len() && 0 <= j < now.len() && i != j implies now[i] != now[j] by {
                if i < kept.len() && j < kept.len() {
                } else if i < kept.len() {
                    assert(kept.contains(kept[i]));
                } else {
                    assert(kept.contains(kept[j]));
                }
            }
        }
    }
}

/// Whether a name begins with `www.`.
pub fn starts_with_www(d: &Vec<char>) -> (r: bool)
    ensures
        r == has_www(d@),
{
    if d.len() >= 4 && d[0] == 'w' && d[1] == 'w' && d[2] == 'w' && d[3] == '.' {
        assert(d@.take(4) =~= www());
        true
    } else {
        if d.len() >= 4 {
            assert(d@.take(4)[0] == d@[0]);
            assert(d@.take(4)[1] == d@[1]);
            assert(d@.take(4)[2] == d@[2]);
            assert(d@.take(4)[3] == d@[3]);
        }
        false
    }
}

/// How many dots a name has: one less than it has labels.
pub fn dots(d: &Vec<char>) -> (r: usize)
    ensures
        r + 1 == label_count(d@),
{
    let mut count: usize = 0;
    let mut i: usize = 0;
    while i < d.len()
        invariant
            i <= d.len(),
            count <= i,
            count + 1 == split(d@.take(i as int), Separator::Dot).len(),
        decreases d.len() - i,
    {
        proof {
            assert(d@.take(i + 1).drop_last() == d@.take(i as int));
            crate::text::lemma_split_nonempty(d@.take(i as int), Separator::Dot);
        }
        if d[i] == '.' {
            count += 1;
        }
        i += 1;
    }
    assert(d@.take(d@.len() as int) == d@);
    count
}

/// The bare form of a domain.
pub fn collapsed(name: &str) -> (r: String)
    ensures
        r@ == collapse(name@),
{
    let chars = chars_of(name);
    if dots(&chars) == 2 && starts_with_www(&chars) {
        let mut out: Vec<char> = Vec::new();
        let mut i: usize = 4;
        while i < chars.len()
            invariant
                4 <= i <= chars.len(),
                out@ == chars@.subrange(4, i as int),
            decreases chars.len() - i,
        {
            out.push(chars[i]);
            i += 1;
        }
        assert(out@ == chars@.skip(4));
        string_of(&out)
    } else {
        string_of(&chars)
    }
}

/// The `www.` companion of a name, if it gets one.
pub fn companion(name: &str) -> (r: Option<String>)
    ensures
        match r {
            Some(c) => gains_companion(name@) && c@ == companion_of(name@),
            None => !gains_companion(name@),
        },
{
    let chars = chars_of(name);
    if dots(&chars) == 1 && !starts_with_www(&chars) {
        let mut out = String::new();
        out.push('w');
        out.push('w');
        out.push('w');
        out.push('.');
        out.append(name);
        assert(out@ =~= www() + name@);
        Some(out)
    } else {
        None
    }
}

/// What one more name adds to the companions of the names before it.
proof fn lemma_companions_push(s: Seq<Seq<char>>, x: Seq<char>)
    ensures
        companions(s.push(x).to_set()) == if gains_companion(x) {
            companions(s.to_set()).insert(companion_of(x))
        } else {
            companions(s.to_set())
        },
{
    s.lemma_push_to_set_commute(x);
    let before = s.to_set();
    let now = s.push(x).to_set();
    let want = if gains_companion(x) {
        companions(before).insert(companion_of(x))
    } else {
        companions(before)
    };
    assert forall|y: Seq<char>| companions(now).contains(y) == want.contains(y) by {
        if companions(now).contains(y) {
            let b = choose|b: Seq<char>|
                now.filter(gains_fn()).contains(b) && y == companion_fn()(b);
            if b != x {
                assert(before.filter(gains_fn()).contains(b));
            }
        }
        if companions(before).contains(y) {
            let b = choose|b: Seq<char>|
                before.filter(gains_fn()).contains(b) && y == companion_fn()(b);
            assert(now.filter(gains_fn()).contains(b));
        }
        if gains_companion(x) && y == companion_of(x) {
            assert(now.filter(gains_fn()).contains(x));
            assert(y == companion_fn()(x));
        }
    }
    assert(companions(now) =~= want);
}

/// The lines of an addlist from its domains. A domain of three labels that
/// begins with `www.` is put in its bare form; a bare form of two labels
/// gets its `www.` companion. All of them are listed once, in ascending
/// order, each between the configured prefix and suffix.
pub fn mutate(config: &AddlistConfig, domains: DomainSet) -> (r: Vec<String>)
    ensures
        names_of(r@) == mutate_spec(
            config.config.prefix_spec(),
            config.config.suffix_spec(),
            domains@,
        ),
{
    let items = domains.into_vec();
    let ghost listing = names_of(items@);
    let mut bare: Vec<String> = Vec::new();
    let mut i: usize = 0;
    while i < items.len()
        invariant
            i <= items.len(),
            listing == names_of(items@),
            names_of(bare@) == listing.take(i as int).map_values(collapse_fn()),
        decreases items.len() - i,
    {
        let ghost before = names_of(bare@);
        bare.push(collapsed(items[i].as_str()));
        assert(names_of(bare@) =~= before.push(collapse(listing[i as int])));
        assert(names_of(bare@) =~= listing.take(i + 1).map_values(collapse_fn()));
        i += 1;
    }
    let ghost bare_names = names_of(bare@);
    proof {
        assert(listing.take(listing.len() as int) == listing);
        listing.lemma_to_set_map_commutes(collapse_fn());
        assert(bare_names.to_set() == bare_forms(domains@));
    }
    let mut extra: Vec<String> = Vec::new();
    let mut k: usize = 0;
    assert(bare_names.take(0).to_set() =~= Set::<Seq<char>>::empty());
    assert(companions(Set::<Seq<char>>::empty()) =~= Set::<Seq<char>>::empty());
    assert(names_of(extra@).to_set() =~= Set::<Seq<char>>::empty());
    while k < bare.len()
        invariant
            k <= bare.len(),
            bare_names == names_of(bare@),
            names_of(extra@).to_set() == companions(bare_names.take(k as int).to_set()),
        decreases bare.len() - k,
    {
        proof {
            assert(bare_names.take(k + 1) == bare_names.take(k as int).push(bare_names[k as int]));
            lemma_companions_push(bare_names.take(k as int), bare_names[k as int]);
        }
        let ghost before = names_of(extra@);
        match companion(bare[k].as_str()) {
            Some(c) => {
                extra.push(c);
                proof {
                    assert(names_of(extra@) =~= before.push(companion_of(bare_names[k as int])));
                    before.lemma_push_to_set_commute(companion_of(bare_names[k as int]));
                }
            },
            None => {},
        }
        k += 1;
    }
    let ghost extra_names = names_of(extra@);
    bare.append(&mut extra);
    proof {
        assert(bare_names.take(bare_names.len() as int) == bare_names);
        assert(names_of(bare@) =~= bare_names + extra_names);
        vstd::seq_lib::seq_to_set_distributes_over_add(bare_names, extra_names);
        assert(names_of(bare@).to_set() == expand(domains@));
        lemma_first_occurrences(names_of(bare@));
    }
    let once = unique_names(bare);
    let ghost once_names = names_of(once@);
    let sorted = sorted_names(once);
    let ghost names = names_of(sorted@);
    proof {
        lemma_rearranged(once_names, names);
        assert(is_listing(names, expand(domains@)));
        lemma_listing_unique(names, expand(domains@));
    }
    let prefix = config.prefix();
    let suffix = config.suffix();
    let mut lines: Vec<String> = Vec::new();
    let mut n: usize = 0;
    while n < sorted.len()
        invariant
            n <= sorted.len(),
            names == names_of(sorted@),
            lines.len() == n,
            forall|j: int| 0 <= j < n ==> (#[trigger] lines@[j])@ == prefix@ + names[j] + suffix@,
        decreases sorted.len() - n,
    {
        let mut line = String::new();
        line.append(prefix);
        line.append(sorted[n].as_str());
        line.append(suffix);
        assert(line@ =~= prefix@ + names[n as int] + suffix@);
        lines.push(line);
        n += 1;
    }
    assert(names_of(lines@) =~= decorate(names, prefix@, suffix@));
    lines
}

/// `parse` does not tell upper case from lower case: two bodies with the
/// same lowercase form have the same domains.
pub proof fn lemma_parse_ignores_case(a: Seq<char>, b: Seq<char>)
    requires
        lowercase_of(a) == lowercase_of(b),
    ensures
        parse_spec(a) == parse_spec(b),
{
}

/// A name with `www.` in front has one label more.
pub proof fn lemma_companion_labels(d: Seq<char>)
    ensures
        label_count(companion_of(d)) == label_count(d) + 1,
        has_www(companion_of(d)),
        companion_of(d).skip(4) == d,
{
    lemma_split_concat_len(www(), d, Separator::Dot);
    let w = www();
    assert(w.drop_last() == seq!['w', 'w', 'w']);
    assert(w.drop_last().drop_last() == seq!['w', 'w']);
    assert(w.drop_last().drop_last().drop_last() == seq!['w']);
    assert(w.drop_last().drop_last().drop_last().drop_last() == Seq::<char>::empty());
    assert(split(Seq::<char>::empty(), Separator::Dot).len() == 1);
    assert(split(seq!['w'], Separator::Dot).len() == 1);
    assert(split(seq!['w', 'w'], Separator::Dot).len() == 1);
    assert(split(seq!['w', 'w', 'w'], Separator::Dot).len() == 1);
    assert(split(w, Separator::Dot).len() == 2);
    assert(companion_of(d).take(4) == www());
    assert(companion_of(d).skip(4) == d);
}

/// A bare form is its own bare form.
pub proof fn lemma_collapse_twice(d: Seq<char>)
    ensures
        collapse(collapse(d)) == collapse(d),
        !(label_count(collapse(d)) == 3 && has_www(collapse(d))),
{
    if label_count(d) == 3 && has_www(d) {
        let b = d.skip(4);
        assert(d == companion_of(b));
        lemma_companion_labels(b);
    }
}

/// Expanding a set that has been expanded changes nothing.
pub proof fn lemma_expand_idempotent(domains: Set<Seq<char>>)
    ensures
        expand(expand(domains)) == expand(domains),
{
    let bare = bare_forms(domains);
    let extra = companions(bare);
    let once = expand(domains);
    let bare2 = bare_forms(once);
    assert forall|y: Seq<char>| bare2.contains(y) == bare.contains(y) by {
        if bare2.contains(y) {
            let x = choose|x: Seq<char>| once.contains(x) && y == collapse_fn()(x);
            if bare.contains(x) {
                let d = choose|d: Seq<char>| domains.contains(d) && x == collapse_fn()(d);
                lemma_collapse_twice(d);
            } else {
                let b = choose|b: Seq<char>|
                    bare.filter(gains_fn()).contains(b) && x == companion_fn()(b);
                lemma_companion_labels(b);
            }
        }
        if bare.contains(y) {
            let d = choose|d: Seq<char>| domains.contains(d) && y == collapse_fn()(d);
            lemma_collapse_twice(d);
            assert(once.contains(y) && y == collapse_fn()(y));
        }
    }
    assert(bare2 =~= bare);
    assert(expand(once) =~= once);
}

/// The expansion of a finite set is finite.
pub proof fn lemma_expand_finite(domains: Set<Seq<char>>)
    requires
        domains.finite(),
    ensures
        expand(domains).finite(),
{
    domains.lemma_map_finite(collapse_fn());
    let bare = bare_forms(domains);
    bare.lemma_len_filter(gains_fn());
    bare.filter(gains_fn()).lemma_map_finite(companion_fn());
    vstd::set_lib::lemma_set_union_finite_iff(bare, companions(bare));
}

/// Without prefix and suffix the lines are the names.
pub proof fn lemma_decorate_plain(names: Seq<Seq<char>>)
    ensures
        decorate(names, Seq::empty(), Seq::empty()) == names,
{
    let plain = decorate(names, Seq::empty(), Seq::empty());
    assert forall|i: int| 0 <= i < names.len() implies plain[i] == names[i] by {
        assert(Seq::<char>::empty() + names[i] + Seq::<char>::empty() =~= names[i]);
    }
    assert(plain =~= names);
}

/// Without prefix and suffix, `mutate` on the lines that it has returned
/// returns them again: both the bare and the `www.` forms are there, and
/// nothing is added, dropped or doubled.
pub proof fn lemma_mutate_fixed_point(domains: Set<Seq<char>>)
    requires
        domains.finite(),
    ensures
        mutate_spec(
            Seq::empty(),
            Seq::empty(),
            mutate_spec(Seq::empty(), Seq::empty(), domains).to_set(),
        ) == mutate_spec(Seq::empty(), Seq::empty(), domains),
{
    let once = expand(domains);
    lemma_expand_finite(domains);
    crate::order::lemma_sorted_listing(once);
    lemma_decorate_plain(sorted_listing(once));
    lemma_expand_idempotent(domains);
}

/// The domains of finitely many words are finitely many.
pub proof fn lemma_words_finite(words: Seq<Seq<char>>)
    ensures
        domains_of_words(words).finite(),
    decreases words.len(),
{
    if words.len() > 0 {
        lemma_words_finite(words.drop_last());
    }
}

/// The domains of finitely many lines are finitely many.
pub proof fn lemma_lines_finite(lines: Seq<Seq<char>>)
    ensures
        domains_of_lines(lines).finite(),
    decreases lines.len(),
{
    if lines.len() > 0 {
        lemma_lines_finite(lines.drop_last());
        lemma_words_finite(split(strip_comment(lines.last()), Separator::Whitespace));
    }
}

/// The domains of finitely many bodies are finitely many.
pub proof fn lemma_bodies_finite(bodies: Seq<Seq<char>>)
    ensures
        domains_of_bodies(bodies).finite(),
    decreases bodies.len(),
{
    if bodies.len() > 0 {
        lemma_bodies_finite(bodies.drop_last());
        lemma_lines_finite(split(lowercase_of(bodies.last()), Separator::Newline));
    }
}

/// A name between a prefix and a suffix is found again: two lines with the
/// same prefix and suffix are equal only if the names are.
pub proof fn lemma_decorated_equal(prefix: Seq<char>, suffix: Seq<char>, a: Seq<char>, b: Seq<char>)
    requires
        prefix + a + suffix == prefix + b + suffix,
    ensures
        a == b,
{
    let x = prefix + a + suffix;
    let y = prefix + b + suffix;
    assert(x.len() == prefix.len() + a.len() + suffix.len());
    assert(y.len() == prefix.len() + b.len() + suffix.len());
    assert(a.len() == b.len());
    assert forall|j: int| 0 <= j < a.len() implies a[j] == b[j] by {
        assert((prefix + a)[prefix.len() + j] == a[j]);
        assert(x[prefix.len() + j] == (prefix + a)[prefix.len() + j]);
        assert((prefix + b)[prefix.len() + j] == b[j]);
        assert(y[prefix.len() + j] == (prefix + b)[prefix.len() + j]);
    }
    assert(a =~= b);
}

/// A domain of the global whitelist is not among the expanded domains,
/// unless its own `www.` sibling has stayed and brings it back.
pub proof fn lemma_whitelisted_not_expanded(
    kept: Set<Seq<char>>,
    global: Set<Seq<char>>,
    d: Seq<char>,
)
    requires
        global.contains(d),
        kept.disjoint(global),
        !(label_count(d) == 2 && kept.contains(companion_of(d))),
        !(has_www(d) && gains_companion(d.skip(4)) && kept.contains(d.skip(4))),
    ensures
        !expand(kept).contains(d),
{
    let bare = bare_forms(kept);
    if bare.contains(d) {
        let f = choose|f: Seq<char>| kept.contains(f) && d == collapse_fn()(f);
        assert(f != d);
        assert(f == companion_of(d));
        lemma_companion_labels(d);
    }
    if companions(bare).contains(d) {
        let b = choose|b: Seq<char>| bare.filter(gains_fn()).contains(b) && d == companion_fn()(b);
        lemma_companion_labels(b);
        let f = choose|f: Seq<char>| kept.contains(f) && b == collapse_fn()(f);
        if f != b {
            assert(f == companion_of(b));
        }
    }
}

/// A domain of the global whitelist stands in no line of an addlist,
/// whatever the local whitelist holds. Left out is the one case in which
/// expansion brings the domain back: its `www.` sibling (the domain with
/// `www.` in front, or without it) is in the sources, in no whitelist, and
/// has the domain as its bare form or as its companion.
pub proof fn lemma_whitelisted_stays_out(
    prefix: Seq<char>,
    suffix: Seq<char>,
    sources: Seq<Seq<char>>,
    local: Option<Seq<Seq<char>>>,
    global: Set<Seq<char>>,
    d: Seq<char>,
)
    requires
        global.contains(d),
        ({
            let kept = surviving(domains_of_bodies(sources), global, local_domains(local));
            &&& !(label_count(d) == 2 && kept.contains(companion_of(d)))
            &&& !(has_www(d) && gains_companion(d.skip(4)) && kept.contains(d.skip(4)))
        }),
    ensures
        !addlist_spec(prefix, suffix, sources, local, global).contains(prefix + d + suffix),
{
    let kept = surviving(domains_of_bodies(sources), global, local_domains(local));
    lemma_bodies_finite(sources);
    lemma_expand_finite(kept);
    crate::order::lemma_sorted_listing(expand(kept));
    lemma_whitelisted_not_expanded(kept, global, d);
    let names = sorted_listing(expand(kept));
    let lines = decorate(names, prefix, suffix);
    if lines.contains(prefix + d + suffix) {
        let i = choose|i: int| 0 <= i < lines.len() && lines[i] == prefix + d + suffix;
        lemma_decorated_equal(prefix, suffix, names[i], d);
        assert(names.to_set().contains(names[i]));
    }
}

/// The domains of some words are the canonical domains that one of the
/// words stands for.
pub proof fn lemma_domains_of_words(words: Seq<Seq<char>>, d: Seq<char>)
    ensures
        domains_of_words(words).contains(d) <==> exists|j: int|
            0 <= j < words.len() && validate_spec(#[trigger] words[j]) == Some(d),
    decreases words.len(),
{
    if words.len() > 0 {
        let before = words.drop_last();
        lemma_domains_of_words(before, d);
        if domains_of_words(words).contains(d) {
            if domains_of_words(before).contains(d) {
                let j = choose|j: int|
                    0 <= j < before.len() && validate_spec(#[trigger] before[j]) == Some(d);
                assert(words[j] == before[j]);
            } else {
                assert(validate_spec(words[words.len() - 1]) == Some(d));
            }
        }
        if exists|j: int| 0 <= j < words.len() && validate_spec(#[trigger] words[j]) == Some(d) {
            let j = choose|j: int|
                0 <= j < words.len() && validate_spec(#[trigger] words[j]) == Some(d);
            if j < before.len() {
                assert(before[j] == words[j]);
            }
        }
    }
}

/// The domains of some lines are the domains of one of the lines.
pub proof fn lemma_domains_of_lines(lines: Seq<Seq<char>>, d: Seq<char>)
    ensures
        domains_of_lines(lines).contains(d) <==> exists|i: int|
            0 <= i < lines.len() && domains_of_line(#[trigger] lines[i]).contains(d),
    decreases lines.len(),
{
    if lines.len() > 0 {
        let before = lines.drop_last();
        lemma_domains_of_lines(before, d);
        if domains_of_lines(lines).contains(d) {
            if domains_of_lines(before).contains(d) {
                let i = choose|i: int|
                    0 <= i < before.len() && domains_of_line(#[trigger] before[i]).contains(d);
                assert(lines[i] == before[i]);
            } else {
                assert(domains_of_line(lines[lines.len() - 1]).contains(d));
            }
        }
        if exists|i: int|
            0 <= i < lines.len() && domains_of_line(#[trigger] lines[i]).contains(d) {
            let i = choose|i: int|
                0 <= i < lines.len() && domains_of_line(#[trigger] lines[i]).contains(d);
            if i < before.len() {
                assert(before[i] == lines[i]);
            }
        }
    }
}

/// Every domain that `parse` returns is a canonical domain.
pub proof fn lemma_parsed_is_canonical(body: Seq<char>, d: Seq<char>)
    requires
        parse_spec(body).contains(d),
    ensures
        is_canonical(d),
{
    let lines = split(lowercase_of(body), Separator::Newline);
    lemma_domains_of_lines(lines, d);
    let i = choose|i: int|
        0 <= i < lines.len() && domains_of_line(#[trigger] lines[i]).contains(d);
    let words = split(strip_comment(lines[i]), Separator::Whitespace);
    lemma_domains_of_words(words, d);
}

/// The lines of an addlist, without prefix and suffix, are its expanded
/// domains in ascending order, each once.
pub proof fn lemma_mutate_lists(domains: Set<Seq<char>>)
    requires
        domains.finite(),
    ensures
        is_listing(mutate_spec(Seq::empty(), Seq::empty(), domains), expand(domains)),
{
    lemma_expand_finite(domains);
    crate::order::lemma_sorted_listing(expand(domains));
    lemma_decorate_plain(sorted_listing(expand(domains)));
}

/// The comment of a line begins inside the line.
pub proof fn lemma_code_len_bounds(line: Seq<char>)
    ensures
        0 <= code_len(line) <= line.len(),
    decreases line.len(),
{
    if !(line.len() == 0 || line.first() == '#') {
        lemma_code_len_bounds(line.drop_first());
    }
}

/// The domains of a text without ASCII upper-case letters are canonical
/// and have none.
pub proof fn lemma_domains_lower(text: Seq<char>)
    requires
        is_lower_text(text),
    ensures
        all_lower_canonical(domains_in(text)),
{
    let lines = split(text, Separator::Newline);
    lemma_split_lower(text, Separator::Newline);
    assert forall|d: Seq<char>| domains_in(text).contains(d) implies is_canonical(d)
        && is_lower_text(d) by {
        lemma_domains_of_lines(lines, d);
        let i = choose|i: int|
            0 <= i < lines.len() && domains_of_line(#[trigger] lines[i]).contains(d);
        let line = lines[i];
        let code = strip_comment(line);
        lemma_code_len_bounds(line);
        assert(is_lower_text(line));
        assert forall|k: int| 0 <= k < code.len() implies !is_upper(#[trigger] code[k]) by {
            assert(code[k] == line[k]);
        }
        let words = split(code, Separator::Whitespace);
        lemma_split_lower(code, Separator::Whitespace);
        lemma_domains_of_words(words, d);
        let j = choose|j: int|
            0 <= j < words.len() && validate_spec(#[trigger] words[j]) == Some(d);
        assert(is_lower_text(words[j]));
        lemma_validated_lower(words[j]);
    }
}

} // verus!
