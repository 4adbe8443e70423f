//! Finding declarations in the text of a song file.
//!
//! A declaration is found by a regular expression with one capture group;
//! what the group holds is then read by this library's own functions.

use vstd::prelude::*;
use regex::Regex;
use crate::number::{lemma_decimal_range, parse_decimal, read_decimal};
use crate::text::{
    copy_range, fields, find_char, index_of_char, lines_view, split_fields, to_chars, to_text, trim,
    trimmed,
};

verus! {

/// What the first capture group of the regular expression `pattern` holds in
/// the leftmost match in `content`; `None` where `pattern` is no regular
/// expression, where nothing in `content` matches, and where the match leaves
/// the group out.
pub uninterp spec fn first_group(pattern: Seq<char>, content: Seq<char>) -> Option<Seq<char>>;

/// Compiles `pattern` with `regex::Regex::new`, searches `content` with
/// `Regex::captures` and hands back a copy of the text of group 1
/// (`Captures::get`, `Match::as_str`). The contract only gives that result its
/// name, `first_group`; a pattern that does not compile gives `None`.
#[verifier::external_body]
fn capture_first(content: &str, pattern: &str) -> (group: Option<String>)
    ensures
        match group {
            Some(g) => first_group(pattern@, content@) == Some(g@),
            None => first_group(pattern@, content@) is None,
        },
{
    match Regex::new(pattern) {
        Ok(re) => match re.captures(content) {
            Some(caps) => match caps.get(1) {
                Some(m) => Some(m.as_str().to_string()),
                None => None,
            },
            None => None,
        },
        Err(_) => None,
    }
}

/// The value of a text field: what was found, trimmed, or the value it had.
pub open spec fn field_value(group: Option<Seq<char>>, otherwise: Seq<char>) -> Seq<char> {
    match group {
        Some(g) => trim(g),
        None => otherwise,
    }
}

/// The value of a decimal field: the decimal that what was found writes once
/// trimmed, or the value the field had where nothing was found or what was
/// found is no decimal.
pub open spec fn decimal_field_value(group: Option<Seq<char>>, otherwise: int) -> int {
    match group {
        Some(g) => match parse_decimal(trim(g)) {
            Some(v) => v,
            None => otherwise,
        },
        None => otherwise,
    }
}

/// A character that a list of pairs may hold anywhere without meaning: a line
/// feed, a carriage return or a space.
pub open spec fn is_spacing(c: char) -> bool {
    c == '\n' || c == '\r' || c == ' '
}

/// `s` without its spacing characters.
pub open spec fn without_spacing(s: Seq<char>) -> Seq<char>
    decreases s.len(),
{
    if s.len() == 0 {
        seq![]
    } else if is_spacing(s.last()) {
        without_spacing(s.drop_last())
    } else {
        without_spacing(s.drop_last()).push(s.last())
    }
}

/// The pair that `item` writes: a decimal, `=`, a decimal. The first `=`
/// parts the two.
pub open spec fn pair_of(item: Seq<char>) -> Option<(i64, i64)> {
    let eq = find_char(item, '=', 0);
    if eq >= item.len() {
        None
    } else {
        match (
            parse_decimal(item.subrange(0, eq)),
            parse_decimal(item.subrange(eq + 1, item.len() as int)),
        ) {
            (Some(k), Some(v)) => Some((k as i64, v as i64)),
            _ => None,
        }
    }
}

/// The pairs among the first `n` of `items`, in order. Items that write no
/// pair are passed over.
pub open spec fn pairs_among(items: Seq<Seq<char>>, n: int) -> Seq<(i64, i64)>
    decreases n,
{
    if n <= 0 {
        seq![]
    } else {
        let before = pairs_among(items, n - 1);
        match pair_of(items[n - 1]) {
            Some(p) => before.push(p),
            None => before,
        }
    }
}

/// The pairs that `text` lists: `text` is trimmed and freed of spacing, and cut
/// at its commas into items.
pub open spec fn pairs_of(text: Seq<char>) -> Seq<(i64, i64)> {
    let items = fields(without_spacing(trim(text)), ',');
    pairs_among(items, items.len() as int)
}

/// The pairs that a search found: those of the text found, or none.
pub open spec fn found_pairs(group: Option<Seq<char>>) -> Seq<(i64, i64)> {
    match group {
        Some(g) => pairs_of(g),
        None => seq![],
    }
}

/// Both numbers of every pair are decimals as this library reads them: below
/// one billion in magnitude.
pub open spec fn pairs_in_range(pairs: Seq<(i64, i64)>) -> bool {
    forall|i: int|
        0 <= i < pairs.len() ==> {
            &&& -1_000_000_000_000_000 < (#[trigger] pairs[i]).0 < 1_000_000_000_000_000
            &&& -1_000_000_000_000_000 < pairs[i].1 < 1_000_000_000_000_000
        }
}

/// The pairs read from text are in range.
pub proof fn lemma_pairs_among_in_range(items: Seq<Seq<char>>, n: int)
    ensures
        pairs_in_range(pairs_among(items, n)),
    decreases n,
{
    if n > 0 {
        lemma_pairs_among_in_range(items, n - 1);
        let item = items[n - 1];
        let eq = find_char(item, '=', 0);
        lemma_decimal_range(item.subrange(0, eq));
        lemma_decimal_range(item.subrange(eq + 1, item.len() as int));
    }
}

/// Pairs in range, with the pairs that a search found added, are in range.
pub proof fn lemma_found_pairs_in_range(pairs: Seq<(i64, i64)>, group: Option<Seq<char>>)
    requires
        pairs_in_range(pairs),
    ensures
        pairs_in_range(pairs + found_pairs(group)),
{
    match group {
        Some(g) => {
            let items = fields(without_spacing(trim(g)), ',');
            lemma_pairs_among_in_range(items, items.len() as int);
        },
        None => {},
    }
}

/// Sets `field` from what was found: the text, trimmed. Where nothing was
/// found, `field` keeps its value.
pub fn apply_group(group: Option<String>, field: &mut String)
    ensures
        final(field)@ == field_value(
            match group {
                Some(g) => Some(g@),
                None => None,
            },
            old(field)@,
        ),
{
    match group {
        Some(g) => {
            let chars = to_chars(g.as_str());
            let value = trimmed(chars.as_slice());
            *field = to_text(value.as_slice());
        },
        None => {},
    }
}

/// Sets `field` from what was found: the decimal that the text writes once
/// trimmed, in millionths. Where nothing was found, or no decimal, `field`
/// keeps its value.
pub fn apply_decimal_group(group: Option<String>, field: &mut i64)
    ensures
        *final(field) == decimal_field_value(
            match group {
                Some(g) => Some(g@),
                None => None,
            },
            *old(field) as int,
        ),
{
    match group {
        Some(g) => {
            let chars = to_chars(g.as_str());
            let value = trimmed(chars.as_slice());
            match read_decimal(value.as_slice()) {
                Some(v) => {
                    *field = v;
                },
                None => {},
            }
        },
        None => {},
    }
}

/// Searches `content` for `pattern` and sets `field` to what the first capture
/// group holds, trimmed. Where nothing is found, `field` keeps its value.
pub fn parse_field(content: &str, pattern: &str, field: &mut String)
    ensures
        final(field)@ == field_value(first_group(pattern@, content@), old(field)@),
{
    apply_group(capture_first(content, pattern), field);
}

/// Searches `content` for `pattern` and sets `field` to the decimal that the
/// first capture group holds. Where nothing is found, or no decimal, `field`
/// keeps its value.
pub fn parse_decimal_field(content: &str, pattern: &str, field: &mut i64)
    ensures
        *final(field) == decimal_field_value(first_group(pattern@, content@), *old(field) as int),
{
    apply_decimal_group(capture_first(content, pattern), field);
}

/// `s` without its spacing characters.
pub fn strip_spacing(s: &[char]) -> (clean: Vec<char>)
    ensures
        clean@ == without_spacing(s@),
{
    let mut clean: Vec<char> = Vec::new();
    let mut i: usize = 0;
    while i < s.len()
        invariant
            i <= s@.len(),
            clean@ == without_spacing(s@.subrange(0, i as int)),
        decreases s.len() - i,
    {
        let c = s[i];
        assert(s@.subrange(0, i + 1).drop_last() =~= s@.subrange(0, i as int));
        if !(c == '\n' || c == '\r' || c == ' ') {
            clean.push(c);
        }
        i += 1;
    }
    assert(s@.subrange(0, s@.len() as int) =~= s@);
    clean
}

/// Reads `item` as a pair.
pub fn read_pair(item: &[char]) -> (pair: Option<(i64, i64)>)
    ensures
        pair == pair_of(item@),
{
    let eq = index_of_char(item, '=', 0);
    if eq >= item.len() {
        return None;
    }
    let key = copy_range(item, 0, eq);
    let value = copy_range(item, eq + 1, item.len());
    match read_decimal(key.as_slice()) {
        Some(k) => match read_decimal(value.as_slice()) {
            Some(v) => Some((k, v)),
            None => None,
        },
        None => None,
    }
}

/// Reads the pairs that `text` lists.
pub fn read_pairs(text: &[char]) -> (pairs: Vec<(i64, i64)>)
    ensures
        pairs@ == pairs_of(text@),
        pairs_in_range(pairs@),
{
    let whole = trimmed(text);
    let clean = strip_spacing(whole.as_slice());
    let items = split_fields(clean.as_slice(), ',');
    let ghost all = lines_view(items@);
    let mut pairs: Vec<(i64, i64)> = Vec::new();
    let mut i: usize = 0;
    while i < items.len()
        invariant
            all == lines_view(items@),
            i <= items@.len(),
            pairs@ == pairs_among(all, i as int),
        decreases items.len() - i,
    {
        assert(all[i as int] == items@[i as int]@);
        match read_pair(items[i].as_slice()) {
            Some(p) => {
                pairs.push(p);
            },
            None => {},
        }
        i += 1;
    }
    proof {
        lemma_pairs_among_in_range(all, all.len() as int);
    }
    pairs
}

/// Adds to `list` the pairs that what was found lists.
pub fn apply_pairs_group(group: Option<String>, list: &mut Vec<(i64, i64)>)
    ensures
        final(list)@ == old(list)@ + found_pairs(
            match group {
                Some(g) => Some(g@),
                None => None,
            },
        ),
{
    match group {
        Some(g) => {
            let chars = to_chars(g.as_str());
            let mut pairs = read_pairs(chars.as_slice());
            list.append(&mut pairs);
        },
        None => {
            assert(list@ =~= old(list)@ + Seq::<(i64, i64)>::empty());
        },
    }
}

/// Searches `content` for `pattern` and adds to `list` the pairs that the
/// first capture group lists. Items that write no pair are passed over.
pub fn parse_pairs(content: &str, pattern: &str, list: &mut Vec<(i64, i64)>)
    ensures
        final(list)@ == old(list)@ + found_pairs(first_group(pattern@, content@)),
{
    apply_pairs_group(capture_first(content, pattern), list);
}

} // verus!
