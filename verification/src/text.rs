//! Text as sequences of characters: trimming, searching and splitting.

use vstd::prelude::*;

verus! {

/// `String::push` appends one character.
pub assume_specification[ String::push ](s: &mut String, c: char)
    ensures
        final(s)@ == old(s)@.push(c),
;

/// A list of lines as a sequence of character sequences.
pub open spec fn lines_view(lines: Seq<Vec<char>>) -> Seq<Seq<char>> {
    Seq::new(lines.len(), |i: int| lines[i]@)
}

/// The characters with the Unicode property White_Space.
pub open spec fn is_whitespace(c: char) -> bool {
    let u = c as u32;
    ||| 0x09 <= u <= 0x0D
    ||| u == 0x20
    ||| u == 0x85
    ||| u == 0xA0
    ||| u == 0x1680
    ||| 0x2000 <= u <= 0x200A
    ||| u == 0x2028
    ||| u == 0x2029
    ||| u == 0x202F
    ||| u == 0x205F
    ||| u == 0x3000
}

/// The first index at or after `i` that holds no whitespace, or the length.
pub open spec fn skip_blank(s: Seq<char>, i: int) -> int
    decreases s.len() - i,
{
    if i < 0 || i >= s.len() || !is_whitespace(s[i]) {
        i
    } else {
        skip_blank(s, i + 1)
    }
}

/// Where the text between `lo` and `j` ends once the whitespace at its end is
/// cut off.
pub open spec fn cut_blank(s: Seq<char>, lo: int, j: int) -> int
    decreases j,
{
    if j <= 0 || j <= lo || j > s.len() || !is_whitespace(s[j - 1]) {
        j
    } else {
        cut_blank(s, lo, j - 1)
    }
}

/// `s` without the whitespace at its start and at its end.
pub open spec fn trim(s: Seq<char>) -> Seq<char> {
    let a = skip_blank(s, 0);
    s.subrange(a, cut_blank(s, a, s.len() as int))
}

/// The first index at or after `i` that holds `c`, or the length.
pub open spec fn find_char(s: Seq<char>, c: char, i: int) -> int
    decreases s.len() - i,
{
    if i < 0 || i >= s.len() || s[i] == c {
        i
    } else {
        find_char(s, c, i + 1)
    }
}

/// `pat` stands in `s` at index `i`.
pub open spec fn starts_at(s: Seq<char>, pat: Seq<char>, i: int) -> bool {
    0 <= i && i + pat.len() <= s.len() && s.subrange(i, i + pat.len()) == pat
}

/// The first index at or after `i` at which `pat` stands in `s`, or the length
/// of `s` where it stands nowhere.
pub open spec fn find_sub(s: Seq<char>, pat: Seq<char>, i: int) -> int
    decreases s.len() - i,
{
    if i < 0 || i >= s.len() || i + pat.len() > s.len() {
        s.len() as int
    } else if starts_at(s, pat, i) {
        i
    } else {
        find_sub(s, pat, i + 1)
    }
}

/// The fields of `s` from index `i` on, `sep` between them. There is always at
/// least one field, and a separator at the very end is followed by an empty
/// one.
pub open spec fn fields_from(s: Seq<char>, sep: char, i: int) -> Seq<Seq<char>>
    decreases s.len() - i,
{
    let e = find_char(s, sep, i);
    if i < 0 || i > s.len() || e >= s.len() {
        seq![s.subrange(i, s.len() as int)]
    } else {
        proof {
            lemma_find_char_bounds(s, sep, i);
        }
        seq![s.subrange(i, e)] + fields_from(s, sep, e + 1)
    }
}

/// The fields of `s`, `sep` between them.
pub open spec fn fields(s: Seq<char>, sep: char) -> Seq<Seq<char>> {
    fields_from(s, sep, 0)
}

/// The lines of `s` from index `i` on, each trimmed. A line ends at a line
/// feed or at the end of the text; nothing follows a line feed at the very end.
pub open spec fn lines_from(s: Seq<char>, i: int) -> Seq<Seq<char>>
    decreases s.len() - i,
{
    let e = find_char(s, '\n', i);
    if i < 0 || i >= s.len() {
        seq![]
    } else if e >= s.len() {
        seq![trim(s.subrange(i, e))]
    } else {
        proof {
            lemma_find_char_bounds(s, '\n', i);
        }
        seq![trim(s.subrange(i, e))] + lines_from(s, e + 1)
    }
}

/// The lines of `s`, each trimmed.
pub open spec fn trimmed_lines(s: Seq<char>) -> Seq<Seq<char>> {
    lines_from(s, 0)
}

/// The pieces of `s` from index `i` on, `pat` between them.
pub open spec fn pieces_from(s: Seq<char>, pat: Seq<char>, i: int) -> Seq<Seq<char>>
    decreases s.len() - i,
{
    let e = find_sub(s, pat, i);
    if i < 0 || i > s.len() || pat.len() == 0 || e >= s.len() {
        seq![s.subrange(i, s.len() as int)]
    } else {
        proof {
            lemma_find_sub_bounds(s, pat, i);
        }
        seq![s.subrange(i, e)] + pieces_from(s, pat, e + pat.len())
    }
}

/// What follows each occurrence of `pat` in `s`, up to the next one.
pub open spec fn sections_after(s: Seq<char>, pat: Seq<char>) -> Seq<Seq<char>> {
    pieces_from(s, pat, 0).drop_first()
}

/// What `find_char` finds: no `c` stands before it, and `c` stands at it
/// unless it is the length.
pub proof fn lemma_find_char_bounds(s: Seq<char>, c: char, i: int)
    requires
        0 <= i <= s.len(),
    ensures
        i <= find_char(s, c, i) <= s.len(),
        forall|k: int| i <= k < find_char(s, c, i) ==> s[k] != c,
        find_char(s, c, i) < s.len() ==> s[find_char(s, c, i)] == c,
    decreases s.len() - i,
{
    if i < s.len() && s[i] != c {
        lemma_find_char_bounds(s, c, i + 1);
    }
}

/// What `find_sub` finds: `pat` stands nowhere before it, and at it unless it
/// is the length.
pub proof fn lemma_find_sub_bounds(s: Seq<char>, pat: Seq<char>, i: int)
    requires
        0 <= i <= s.len(),
    ensures
        i <= find_sub(s, pat, i) <= s.len(),
        forall|k: int| i <= k < find_sub(s, pat, i) ==> !starts_at(s, pat, k),
        find_sub(s, pat, i) < s.len() ==> starts_at(s, pat, find_sub(s, pat, i)),
        pat.len() > 0 && find_sub(s, pat, i) == s.len() ==> !starts_at(s, pat, s.len() as int),
    decreases s.len() - i,
{
    if i >= s.len() || i + pat.len() > s.len() {
    } else if starts_at(s, pat, i) {
    } else {
        lemma_find_sub_bounds(s, pat, i + 1);
    }
}

/// Whether `c` has the Unicode property White_Space.
pub fn is_space(c: char) -> (b: bool)
    ensures
        b == is_whitespace(c),
{
    let u: u32 = c as u32;
    (0x09 <= u && u <= 0x0D) || u == 0x20 || u == 0x85 || u == 0xA0 || u == 0x1680 || (0x2000 <= u
        && u <= 0x200A) || u == 0x2028 || u == 0x2029 || u == 0x202F || u == 0x205F || u == 0x3000
}

/// The characters of `s`, in order.
pub fn to_chars(s: &str) -> (chars: Vec<char>)
    ensures
        chars@ == s@,
{
    let mut chars: Vec<char> = Vec::new();
    for c in it: s.chars()
        invariant
            it.seq() == s@,
            chars@ == it.seq().take(it.index()),
    {
        chars.push(c);
    }
    chars
}

/// The string made of `chars`, in order.
pub fn to_text(chars: &[char]) -> (s: String)
    ensures
        s@ == chars@,
{
    let mut s = String::new();
    let mut i: usize = 0;
    while i < chars.len()
        invariant
            i <= chars.len(),
            s@ == chars@.take(i as int),
        decreases chars.len() - i,
    {
        s.push(chars[i]);
        i += 1;
    }
    s
}

/// A copy of the characters of `s` from `lo` up to `hi`.
pub fn copy_range(s: &[char], lo: usize, hi: usize) -> (part: Vec<char>)
    requires
        lo <= hi <= s@.len(),
    ensures
        part@ == s@.subrange(lo as int, hi as int),
{
    let mut part: Vec<char> = Vec::new();
    let mut i: usize = lo;
    while i < hi
        invariant
            lo <= i <= hi <= s@.len(),
            part@ == s@.subrange(lo as int, i as int),
        decreases hi - i,
    {
        part.push(s[i]);
        i += 1;
    }
    part
}

/// The text between `lo` and `hi`, trimmed.
pub fn trimmed_range(s: &[char], lo: usize, hi: usize) -> (part: Vec<char>)
    requires
        lo <= hi <= s@.len(),
    ensures
        part@ == trim(s@.subrange(lo as int, hi as int)),
{
    let ghost t = s@.subrange(lo as int, hi as int);
    let mut a: usize = lo;
    while a < hi && is_space(s[a])
        invariant
            lo <= a <= hi <= s@.len(),
            t == s@.subrange(lo as int, hi as int),
            skip_blank(t, a - lo) == skip_blank(t, 0),
        decreases hi - a,
    {
        a += 1;
    }
    let mut b: usize = hi;
    while b > a && is_space(s[b - 1])
        invariant
            lo <= a <= b <= hi <= s@.len(),
            t == s@.subrange(lo as int, hi as int),
            cut_blank(t, a - lo, b - lo) == cut_blank(t, a - lo, t.len() as int),
        decreases b,
    {
        b -= 1;
    }
    let part = copy_range(s, a, b);
    assert(part@ =~= trim(t));
    part
}

/// `s` without the whitespace at its start and at its end.
pub fn trimmed(s: &[char]) -> (part: Vec<char>)
    ensures
        part@ == trim(s@),
{
    assert(s@.subrange(0, s@.len() as int) =~= s@);
    trimmed_range(s, 0, s.len())
}

/// The first index at or after `i` that holds `c`, or the length.
pub fn index_of_char(s: &[char], c: char, i: usize) -> (e: usize)
    requires
        i <= s@.len(),
    ensures
        e == find_char(s@, c, i as int),
        i <= e <= s@.len(),
{
    let mut e: usize = i;
    while e < s.len() && s[e] != c
        invariant
            i <= e <= s@.len(),
            find_char(s@, c, e as int) == find_char(s@, c, i as int),
        decreases s.len() - e,
    {
        e += 1;
    }
    e
}

/// Whether `pat` stands in `s` at index `i`.
pub fn matches_at(s: &[char], pat: &[char], i: usize) -> (b: bool)
    requires
        i <= s@.len(),
    ensures
        b == starts_at(s@, pat@, i as int),
{
    if pat.len() > s.len() - i {
        return false;
    }
    let mut k: usize = 0;
    while k < pat.len()
        invariant
            i + pat@.len() <= s@.len() <= usize::MAX,
            k <= pat@.len(),
            forall|m: int| 0 <= m < k ==> s@[i + m] == pat@[m],
        decreases pat.len() - k,
    {
        if s[i + k] != pat[k] {
            assert(s@.subrange(i as int, i + pat@.len())[k as int] != pat@[k as int]);
            return false;
        }
        k += 1;
    }
    assert(s@.subrange(i as int, i + pat@.len()) =~= pat@);
    true
}

/// The first index at or after `i` at which `pat` stands in `s`, or the length
/// of `s`.
pub fn index_of_sub(s: &[char], pat: &[char], i: usize) -> (e: usize)
    requires
        i <= s@.len(),
    ensures
        e == find_sub(s@, pat@, i as int),
        i <= e <= s@.len(),
{
    let mut e: usize = i;
    while e < s.len() && pat.len() <= s.len() - e
        invariant
            i <= e <= s@.len(),
            find_sub(s@, pat@, e as int) == find_sub(s@, pat@, i as int),
        decreases s.len() - e,
    {
        if matches_at(s, pat, e) {
            return e;
        }
        e += 1;
    }
    s.len()
}

/// The fields of `s`, `sep` between them.
pub fn split_fields(s: &[char], sep: char) -> (parts: Vec<Vec<char>>)
    ensures
        lines_view(parts@) == fields(s@, sep),
{
    let mut parts: Vec<Vec<char>> = Vec::new();
    let mut i: usize = 0;
    loop
        invariant_except_break
            lines_view(parts@) + fields_from(s@, sep, i as int) == fields(s@, sep),
        invariant
            i <= s@.len(),
        ensures
            lines_view(parts@) == fields(s@, sep),
        decreases s@.len() - i,
    {
        let e = index_of_char(s, sep, i);
        let ghost before = lines_view(parts@);
        parts.push(copy_range(s, i, e));
        assert(lines_view(parts@) =~= before + seq![s@.subrange(i as int, e as int)]);
        if e >= s.len() {
            assert(lines_view(parts@) =~= before + fields_from(s@, sep, i as int));
            break;
        }
        assert(lines_view(parts@) + fields_from(s@, sep, e + 1) =~= before + fields_from(
            s@,
            sep,
            i as int,
        ));
        i = e + 1;
    }
    parts
}

/// The lines of `s`, each trimmed.
pub fn split_lines(s: &[char]) -> (lines: Vec<Vec<char>>)
    ensures
        lines_view(lines@) == trimmed_lines(s@),
{
    let mut lines: Vec<Vec<char>> = Vec::new();
    let mut i: usize = 0;
    while i < s.len()
        invariant
            lines_view(lines@) + lines_from(s@, i as int) == trimmed_lines(s@),
        decreases s@.len() - i,
    {
        let e = index_of_char(s, '\n', i);
        let ghost before = lines_view(lines@);
        lines.push(trimmed_range(s, i, e));
        assert(lines_view(lines@) =~= before + seq![trim(s@.subrange(i as int, e as int))]);
        if e >= s.len() {
            assert(lines_view(lines@) =~= before + lines_from(s@, i as int));
            return lines;
        }
        assert(lines_view(lines@) + lines_from(s@, e + 1) =~= before + lines_from(s@, i as int));
        i = e + 1;
    }
    assert(lines_from(s@, i as int) =~= seq![]);
    assert(lines_view(lines@) =~= trimmed_lines(s@));
    lines
}

/// What follows each occurrence of `pat` in `s`, up to the next one.
pub fn split_sections(s: &[char], pat: &[char]) -> (parts: Vec<Vec<char>>)
    requires
        pat@.len() > 0,
    ensures
        lines_view(parts@) == sections_after(s@, pat@),
{
    let mut parts: Vec<Vec<char>> = Vec::new();
    let first = index_of_sub(s, pat, 0);
    if first >= s.len() {
        assert(sections_after(s@, pat@) =~= seq![]);
        assert(lines_view(parts@) =~= seq![]);
        return parts;
    }
    proof {
        lemma_find_sub_bounds(s@, pat@, 0);
    }
    let mut i: usize = first + pat.len();
    assert(sections_after(s@, pat@) =~= pieces_from(s@, pat@, i as int));
    loop
        invariant_except_break
            lines_view(parts@) + pieces_from(s@, pat@, i as int) == sections_after(s@, pat@),
        invariant
            pat@.len() > 0,
            i <= s@.len(),
        ensures
            lines_view(parts@) == sections_after(s@, pat@),
        decreases s@.len() - i,
    {
        let e = index_of_sub(s, pat, i);
        let ghost before = lines_view(parts@);
        parts.push(copy_range(s, i, e));
        assert(lines_view(parts@) =~= before + seq![s@.subrange(i as int, e as int)]);
        if e >= s.len() {
            assert(lines_view(parts@) =~= before + pieces_from(s@, pat@, i as int));
            break;
        }
        proof {
            lemma_find_sub_bounds(s@, pat@, i as int);
        }
        assert(lines_view(parts@) + pieces_from(s@, pat@, e + pat@.len()) =~= before + pieces_from(
            s@,
            pat@,
            i as int,
        ));
        i = e + pat.len();
    }
    parts
}

} // verus!
