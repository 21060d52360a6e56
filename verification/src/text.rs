//! Character-level text primitives and what they mean on sequences of characters.

use vstd::prelude::*;
use vstd::utf8::is_ascii_chars;

verus! {

// ---- what std does ----------------------------------------------------------

/// `String::push` puts one character at the end of the string and leaves the rest as it was.
pub assume_specification[ String::push ](s: &mut String, c: char)
    ensures
        final(s)@ == old(s)@.push(c),
;

/// Whether `c` has the Unicode `White_Space` property.
pub open spec fn white_space(c: char) -> bool {
    ||| '\u{9}' <= c <= '\u{d}'
    ||| c == '\u{20}'
    ||| c == '\u{85}'
    ||| c == '\u{a0}'
    ||| c == '\u{1680}'
    ||| '\u{2000}' <= c <= '\u{200a}'
    ||| c == '\u{2028}'
    ||| c == '\u{2029}'
    ||| c == '\u{202f}'
    ||| c == '\u{205f}'
    ||| c == '\u{3000}'
}

/// `char::is_whitespace` tells whether a character has the Unicode `White_Space` property, whose
/// members [`white_space`] lists.
pub assume_specification[ char::is_whitespace ](c: char) -> (r: bool)
    ensures
        r == white_space(c),
;

/// The lower-case form of a text by Unicode's rules: what `str::to_lowercase` returns.
pub uninterp spec fn lowercase(s: Seq<char>) -> Seq<char>;

/// `str::to_lowercase` returns a function of the text alone, [`lowercase`]. On a text of ASCII
/// characters it maps `A`..`Z` to `a`..`z` and keeps every other character.
pub assume_specification[ str::to_lowercase ](s: &str) -> (r: String)
    ensures
        r@ == lowercase(s@),
        is_ascii_chars(s@) ==> r@ == ascii_lowercase(s@),
;

/// The lower-case form of one ASCII character.
pub open spec fn ascii_lowercase_char(c: char) -> char {
    if 'A' <= c <= 'Z' {
        (c as u32 + 32) as char
    } else {
        c
    }
}

/// An ASCII text with its capital letters made small.
pub open spec fn ascii_lowercase(s: Seq<char>) -> Seq<char> {
    Seq::new(s.len(), |i: int| ascii_lowercase_char(s[i]))
}

/// Lowering an ASCII text changes its capital letters and nothing else, each into its small letter; small texts
/// stay as they are.
pub proof fn lowering_changes_capitals_only(s: Seq<char>, i: int)
    requires
        0 <= i < s.len(),
    ensures
        ascii_lowercase(s).len() == s.len(),
        !('A' <= s[i] <= 'Z') ==> ascii_lowercase(s)[i] == s[i],
        'A' <= s[i] <= 'Z' ==> 'a' <= ascii_lowercase(s)[i] <= 'z' && ascii_lowercase(s)[i] as int
            - 'a' as int == s[i] as int - 'A' as int,
        ascii_lowercase(ascii_lowercase(s)) == ascii_lowercase(s),
{
    assert forall|k: int| 0 <= k < s.len() implies #[trigger] ascii_lowercase(ascii_lowercase(s))[k]
        == ascii_lowercase(s)[k] by {
        assert(ascii_lowercase(s)[k] == ascii_lowercase_char(s[k]));
    }
}

// ---- between strings and characters -----------------------------------------

/// The characters of each string of a list.
pub open spec fn texts(v: Seq<String>) -> Seq<Seq<char>> {
    Seq::new(v.len(), |i: int| v[i]@)
}

/// Every string of a list is shown, each in its place.
pub proof fn texts_show_every_string(v: Seq<String>)
    ensures
        texts(v).len() == v.len(),
        forall|i: int| 0 <= i < v.len() ==> #[trigger] texts(v)[i] == v[i]@,
{
}

/// The characters of a string, if there is one.
pub open spec fn opt_text(s: Option<String>) -> Option<Seq<char>> {
    match s {
        Some(t) => Some(t@),
        None => None,
    }
}

/// The characters of `s`, in order.
pub fn chars_of(s: &str) -> (r: Vec<char>)
    ensures
        r@ == s@,
{
    let mut out: Vec<char> = Vec::new();
    for c in it: s.chars()
        invariant
            out@ == it.seq().take(it.index()),
            it.seq() == s@,
    {
        out.push(c);
    }
    out
}

/// The string made of `chars[from..to]`.
pub fn string_of(chars: &Vec<char>, from: usize, to: usize) -> (r: String)
    requires
        from <= to <= chars.len(),
    ensures
        r@ == chars@.subrange(from as int, to as int),
{
    let mut out = String::new();
    for i in from..to
        invariant
            from <= to <= chars.len(),
            out@ == chars@.subrange(from as int, i as int),
    {
        out.push(chars[i]);
    }
    out
}

/// Whether two texts are the same.
pub fn same_text(a: &str, b: &str) -> (r: bool)
    ensures
        r == (a@ == b@),
{
    let x = chars_of(a);
    let y = chars_of(b);
    if x.len() != y.len() {
        return false;
    }
    for i in 0..x.len()
        invariant
            x@ == a@,
            y@ == b@,
            x.len() == y.len(),
            x@.take(i as int) == y@.take(i as int),
    {
        if x[i] != y[i] {
            return false;
        }
        assert(x@.take(i + 1) == x@.take(i as int).push(x@[i as int]));
        assert(y@.take(i + 1) == y@.take(i as int).push(y@[i as int]));
    }
    assert(x@.take(x@.len() as int) == x@);
    assert(y@.take(y@.len() as int) == y@);
    true
}

/// Whether a list holds a text.
pub fn holds_text(list: &Vec<String>, s: &String) -> (r: bool)
    ensures
        r == texts(list@).contains(s@),
{
    for i in 0..list.len()
        invariant
            forall|j: int| 0 <= j < i ==> texts(list@)[j] != s@,
    {
        if list[i] == *s {
            assert(texts(list@)[i as int] == s@);
            return true;
        }
    }
    false
}

// ---- searching ---------------------------------------------------------------

/// The first position at or after `from` whose item satisfies `p`.
pub open spec fn first_from<A>(s: Seq<A>, p: spec_fn(A) -> bool, from: int) -> Option<int>
    decreases s.len() - from,
{
    if from < 0 || from >= s.len() {
        None
    } else if p(s[from]) {
        Some(from)
    } else {
        first_from(s, p, from + 1)
    }
}

/// Where a first position is found, it is the only one with nothing before it.
pub proof fn lemma_first_from<A>(s: Seq<A>, p: spec_fn(A) -> bool, from: int)
    requires
        0 <= from,
    ensures
        match first_from(s, p, from) {
            Some(i) => from <= i < s.len() && p(s[i]) && forall|j: int|
                from <= j < i ==> !p(#[trigger] s[j]),
            None => forall|j: int| from <= j < s.len() ==> !p(#[trigger] s[j]),
        },
    decreases s.len() - from,
{
    if from < s.len() && !p(s[from]) {
        lemma_first_from(s, p, from + 1);
    }
}

/// The first position at or after `from` at which the text `p` stands in `s`.
pub open spec fn find_piece(s: Seq<char>, p: Seq<char>, from: int) -> Option<int>
    decreases s.len() + 1 - from,
{
    if from < 0 || from + p.len() > s.len() {
        None
    } else if s.subrange(from, from + p.len()) == p {
        Some(from)
    } else {
        find_piece(s, p, from + 1)
    }
}

/// A piece that was found lies inside the text, at or after the start of the search.
pub proof fn lemma_find_piece(s: Seq<char>, p: Seq<char>, from: int)
    ensures
        match find_piece(s, p, from) {
            Some(i) => from <= i && i + p.len() <= s.len() && s.subrange(i, i + p.len()) == p
                && forall|j: int|
                from <= j < i ==> #[trigger] s.subrange(j, j + p.len()) != p,
            None => 0 <= from ==> forall|j: int|
                from <= j && j + p.len() <= s.len() ==> #[trigger] s.subrange(j, j + p.len()) != p,
        },
    decreases s.len() + 1 - from,
{
    if 0 <= from && from + p.len() <= s.len() && s.subrange(from, from + p.len()) != p {
        lemma_find_piece(s, p, from + 1);
    }
}

/// Whether `p` stands somewhere in `s`.
pub open spec fn occurs(s: Seq<char>, p: Seq<char>) -> bool {
    exists|i: int| 0 <= i <= s.len() - p.len() && #[trigger] s.subrange(i, i + p.len()) == p
}

/// Whether `needle` stands somewhere in `hay`.
pub fn contains_text(hay: &str, needle: &str) -> (r: bool)
    ensures
        r == occurs(hay@, needle@),
{
    let h = chars_of(hay);
    let n = chars_of(needle);
    if n.len() > h.len() {
        return false;
    }
    let last: usize = h.len() - n.len();
    let mut i: usize = 0;
    while i <= last
        invariant
            h@ == hay@,
            n@ == needle@,
            n.len() <= h.len(),
            last == h.len() - n.len(),
            i <= last + 1,
            forall|j: int| 0 <= j < i ==> #[trigger] h@.subrange(j, j + n@.len()) != n@,
        decreases last + 1 - i,
    {
        if piece_at(&h, i, &n) {
            return true;
        }
        if i == last {
            return false;
        }
        i = i + 1;
    }
    false
}

/// Whether `n` stands in `h` at position `at`.
pub fn piece_at(h: &Vec<char>, at: usize, n: &Vec<char>) -> (r: bool)
    requires
        at + n.len() <= h.len(),
    ensures
        r == (h@.subrange(at as int, at + n.len()) == n@),
{
    for k in 0..n.len()
        invariant
            at + n.len() <= h.len(),
            forall|j: int| 0 <= j < k ==> h@[at + j] == n@[j],
    {
        if h[at + k] != n[k] {
            assert(h@.subrange(at as int, at + n.len())[k as int] != n@[k as int]);
            return false;
        }
    }
    assert(h@.subrange(at as int, at + n.len()) =~= n@);
    true
}

/// A piece occurs in a text exactly where the text is something, the piece, and something more.
pub proof fn pieces_occur_where_they_stand(before: Seq<char>, p: Seq<char>, after: Seq<char>, s: Seq<char>)
    ensures
        occurs(before + p + after, p),
        occurs(s, p) ==> exists|a: Seq<char>, b: Seq<char>| s == #[trigger] (a + p + b),
{
    let whole = before + p + after;
    let at = before.len() as int;
    assert(whole.subrange(at, at + p.len()) =~= p);
    if occurs(s, p) {
        let i = choose|i: int|
            0 <= i <= s.len() - p.len() && #[trigger] s.subrange(i, i + p.len()) == p;
        assert(s =~= s.take(i) + p + s.skip(i + p.len()));
    }
}

/// Whether `s` begins with `p`.
pub open spec fn begins_with(s: Seq<char>, p: Seq<char>) -> bool {
    p.len() <= s.len() && s.take(p.len() as int) == p
}

/// Whether `s` begins with `p`.
pub fn starts_with_text(s: &str, p: &str) -> (r: bool)
    ensures
        r == begins_with(s@, p@),
{
    let h = chars_of(s);
    let n = chars_of(p);
    if n.len() > h.len() {
        return false;
    }
    piece_at(&h, 0, &n)
}

// ---- trimming and clipping -----------------------------------------------------

/// `s` without the white space that it begins with.
pub open spec fn trimmed_start(s: Seq<char>) -> Seq<char>
    decreases s.len(),
{
    if s.len() > 0 && white_space(s[0]) {
        trimmed_start(s.skip(1))
    } else {
        s
    }
}

/// `s` without the white space that it ends with.
pub open spec fn trimmed_end(s: Seq<char>) -> Seq<char>
    decreases s.len(),
{
    if s.len() > 0 && white_space(s.last()) {
        trimmed_end(s.drop_last())
    } else {
        s
    }
}

/// `s` without the white space at its two ends.
pub open spec fn trimmed(s: Seq<char>) -> Seq<char> {
    trimmed_end(trimmed_start(s))
}

/// `s` without the white space at its two ends.
pub fn trim_text(s: &str) -> (r: String)
    ensures
        r@ == trimmed(s@),
{
    let chars = chars_of(s);
    let mut i: usize = 0;
    assert(chars@.skip(0) == chars@);
    while i < chars.len() && chars[i].is_whitespace()
        invariant
            i <= chars.len(),
            trimmed_start(chars@) == trimmed_start(chars@.skip(i as int)),
        decreases chars.len() - i,
    {
        assert(chars@.skip(i as int).skip(1) == chars@.skip(i + 1));
        i = i + 1;
    }
    let ghost rest = chars@.skip(i as int);
    let mut j: usize = chars.len();
    assert(chars@.subrange(i as int, j as int) == rest);
    while i < j && chars[j - 1].is_whitespace()
        invariant
            i <= j <= chars.len(),
            trimmed_end(rest) == trimmed_end(chars@.subrange(i as int, j as int)),
        decreases j,
    {
        assert(chars@.subrange(i as int, j as int).drop_last() == chars@.subrange(
            i as int,
            j - 1,
        ));
        j = j - 1;
    }
    string_of(&chars, i, j)
}

/// What is trimmed has no white space at its ends, so trimming it again changes nothing.
pub proof fn lemma_trimmed_twice(s: Seq<char>)
    ensures
        trimmed(trimmed(s)) == trimmed(s),
{
    let a = trimmed_start(s);
    let b = trimmed_end(a);
    lemma_trimmed_start(s);
    lemma_trimmed_end(a);
    if b.len() > 0 {
        assert(b[0] == a[0]);
    }
}

proof fn lemma_trimmed_start(s: Seq<char>)
    ensures
        trimmed_start(s).len() > 0 ==> !white_space(trimmed_start(s)[0]),
    decreases s.len(),
{
    if s.len() > 0 && white_space(s[0]) {
        lemma_trimmed_start(s.skip(1));
    }
}

proof fn lemma_trimmed_end(s: Seq<char>)
    ensures
        trimmed_end(s).len() <= s.len(),
        trimmed_end(s) == s.take(trimmed_end(s).len() as int),
        trimmed_end(s).len() > 0 ==> !white_space(trimmed_end(s).last()),
    decreases s.len(),
{
    if s.len() > 0 && white_space(s.last()) {
        lemma_trimmed_end(s.drop_last());
        let t = trimmed_end(s.drop_last());
        assert(s.drop_last().take(t.len() as int) =~= s.take(t.len() as int));
    } else {
        assert(s.take(s.len() as int) =~= s);
    }
}

/// Trimming takes away white space and nothing else: what is left is a stretch of the text, everything before
/// and behind it is white space, and it neither begins nor ends with white space.
pub proof fn trimming_takes_white_space_only(s: Seq<char>)
    ensures
        exists|a: int, b: int|
            #![trigger s.subrange(a, b)]
            0 <= a <= b <= s.len() && trimmed(s) == s.subrange(a, b) && all_white(s.take(a))
                && all_white(s.skip(b)),
        trimmed(s).len() > 0 ==> !white_space(trimmed(s)[0]) && !white_space(trimmed(s).last()),
{
    let front = trimmed_start(s);
    lemma_trimmed_start(s);
    lemma_trimmed_start_is_rest(s);
    lemma_trimmed_end(front);
    lemma_trimmed_end_is_white(front);
    let a = s.len() - front.len();
    let b = a + trimmed_end(front).len();
    assert(s.subrange(a, b) =~= trimmed(s));
    assert(s.skip(b) =~= front.skip(trimmed_end(front).len() as int));
    if trimmed(s).len() > 0 {
        assert(trimmed(s)[0] == front[0]);
    }
}

/// Whether a text is white space only.
pub open spec fn all_white(s: Seq<char>) -> bool {
    forall|i: int| 0 <= i < s.len() ==> white_space(#[trigger] s[i])
}

/// A text is trimmed away exactly where it is white space only.
pub proof fn blank_texts_are_trimmed_away(s: Seq<char>)
    ensures
        trimmed(s).len() == 0 <==> all_white(s),
{
    trimming_takes_white_space_only(s);
    let (a, b) = choose|a: int, b: int|
        #![trigger s.subrange(a, b)]
        0 <= a <= b <= s.len() && trimmed(s) == s.subrange(a, b) && all_white(s.take(a)) && all_white(
            s.skip(b),
        );
    if trimmed(s).len() == 0 {
        assert forall|i: int| 0 <= i < s.len() implies white_space(#[trigger] s[i]) by {
            if i < a {
                assert(s.take(a)[i] == s[i]);
            } else {
                assert(s.skip(b)[i - b] == s[i]);
            }
        }
    } else if all_white(s) {
        assert(trimmed(s)[0] == s[a]);
    }
}

proof fn lemma_trimmed_start_is_rest(s: Seq<char>)
    ensures
        trimmed_start(s).len() <= s.len(),
        trimmed_start(s) == s.skip(s.len() - trimmed_start(s).len()),
        all_white(s.take(s.len() - trimmed_start(s).len())),
    decreases s.len(),
{
    if s.len() > 0 && white_space(s[0]) {
        let rest = s.skip(1);
        lemma_trimmed_start_is_rest(rest);
        let n = s.len() - trimmed_start(s).len();
        assert(s.skip(n) =~= rest.skip(n - 1));
        assert forall|i: int| 0 <= i < s.take(n).len() implies white_space(#[trigger] s.take(n)[i]) by {
            if i > 0 {
                assert(rest.take(n - 1)[i - 1] == s[i]);
            }
        }
    } else {
        assert(s.skip(0) =~= s);
    }
}

proof fn lemma_trimmed_end_is_white(s: Seq<char>)
    ensures
        trimmed_end(s).len() <= s.len(),
        all_white(s.skip(trimmed_end(s).len() as int)),
    decreases s.len(),
{
    if s.len() > 0 && white_space(s.last()) {
        let rest = s.drop_last();
        lemma_trimmed_end_is_white(rest);
        let n = trimmed_end(s).len() as int;
        assert forall|i: int| 0 <= i < s.skip(n).len() implies white_space(#[trigger] s.skip(n)[i]) by {
            if i < s.len() - n - 1 {
                assert(rest.skip(n)[i] == s[n + i]);
            }
        }
    }
}

/// `s` itself if it has at most `max` characters, else its first `max` characters and an ellipsis.
pub open spec fn clipped(s: Seq<char>, max: nat) -> Seq<char> {
    if s.len() > max {
        s.take(max as int).push('\u{2026}')
    } else {
        s
    }
}

/// `s` itself if it has at most `max` characters, else its first `max` characters and an ellipsis.
pub fn snippet(s: &str, max: usize) -> (r: String)
    ensures
        r@ == clipped(s@, max as nat),
{
    let chars = chars_of(s);
    if chars.len() > max {
        let mut out = string_of(&chars, 0, max);
        out.push('\u{2026}');
        out
    } else {
        s.to_owned()
    }
}

/// What is clipped has at most `max` characters and an ellipsis, and begins as the text does.
pub proof fn clipped_is_short(s: Seq<char>, max: nat)
    ensures
        clipped(s, max).len() <= max + 1,
        s.len() <= max ==> clipped(s, max) == s,
        s.len() > max ==> clipped(s, max).drop_last() == s.take(max as int) && clipped(s, max).last()
            == '\u{2026}',
{
    if s.len() > max {
        assert(clipped(s, max).drop_last() =~= s.take(max as int));
    }
}

/// The first `n` items of `s`, or all of them if there are fewer.
pub open spec fn at_most<A>(s: Seq<A>, n: nat) -> Seq<A> {
    if s.len() > n {
        s.take(n as int)
    } else {
        s
    }
}

/// What is cut to `n` items is the text's beginning: all of it where it is short enough, else `n` items of it.
pub proof fn cutting_keeps_the_front<A>(s: Seq<A>, n: nat)
    ensures
        at_most(s, n).is_prefix_of(s),
        s.len() <= n ==> at_most(s, n) == s,
        s.len() > n ==> at_most(s, n).len() == n,
{
}

/// The first `max` characters of `s`, or all of them if there are fewer.
pub fn first_chars(s: &str, max: usize) -> (r: String)
    ensures
        r@ == at_most(s@, max as nat),
{
    let chars = chars_of(s);
    if chars.len() > max {
        string_of(&chars, 0, max)
    } else {
        s.to_owned()
    }
}

// ---- splitting and joining -------------------------------------------------------

/// Which characters belong to the runs that a text is split into.
#[derive(Clone, Copy, PartialEq, Eq, Debug, Structural)]
pub enum RunOf {
    /// ASCII letters, digits and the apostrophe: search tokens.
    TokenChars,
    /// Everything that is not white space: words.
    Words,
}

/// Whether `c` is an ASCII letter or digit.
pub open spec fn ascii_alphanumeric(c: char) -> bool {
    'a' <= c <= 'z' || 'A' <= c <= 'Z' || '0' <= c <= '9'
}

impl RunOf {
    /// Whether `c` belongs to a run.
    pub open spec fn keeps(self, c: char) -> bool {
        match self {
            RunOf::TokenChars => ascii_alphanumeric(c) || c == '\'',
            RunOf::Words => !white_space(c),
        }
    }

    /// Whether `c` belongs to a run.
    pub fn keeps_char(self, c: char) -> (r: bool)
        ensures
            r == self.keeps(c),
    {
        match self {
            RunOf::TokenChars => {
                ('a' <= c && c <= 'z') || ('A' <= c && c <= 'Z') || ('0' <= c && c <= '9') || c
                    == '\''
            },
            RunOf::Words => !c.is_whitespace(),
        }
    }
}

/// The longest possible runs of kept characters in `s`, in order.
pub open spec fn runs(s: Seq<char>, kind: RunOf) -> Seq<Seq<char>>
    decreases s.len(),
{
    if s.len() == 0 {
        Seq::empty()
    } else {
        let before = runs(s.drop_last(), kind);
        let c = s.last();
        if !kind.keeps(c) {
            before
        } else if before.len() > 0 && s.len() >= 2 && kind.keeps(s[s.len() - 2]) {
            before.drop_last().push(before.last().push(c))
        } else {
            before.push(seq![c])
        }
    }
}

/// The longest possible runs of kept characters in `s`, in order.
pub fn split_runs(s: &str, kind: RunOf) -> (r: Vec<String>)
    ensures
        texts(r@) == runs(s@, kind),
{
    let chars = chars_of(s);
    let mut out: Vec<String> = Vec::new();
    let mut cur = String::new();
    let mut open = false;
    assert(chars@.take(0).len() == 0);
    for i in 0..chars.len()
        invariant
            open == (i > 0 && kind.keeps(chars@[i - 1])),
            runs(chars@.take(i as int), kind) == if open {
                texts(out@).push(cur@)
            } else {
                texts(out@)
            },
    {
        let c = chars[i];
        let ghost before = runs(chars@.take(i as int), kind);
        assert(chars@.take(i + 1).drop_last() == chars@.take(i as int));
        if kind.keeps_char(c) {
            if !open {
                cur = String::new();
            }
            cur.push(c);
            proof {
                if open {
                    assert(before.drop_last() == texts(out@));
                } else {
                    assert(Seq::<char>::empty().push(c) == seq![c]);
                    assert(cur@ == seq![c]);
                }
            }
            open = true;
        } else {
            if open {
                let ghost o = out@;
                out.push(cur.clone());
                assert(texts(out@) == texts(o).push(cur@));
            }
            open = false;
        }
    }
    assert(chars@.take(chars@.len() as int) == chars@);
    if open {
        let ghost o = out@;
        let ghost last = cur@;
        out.push(cur);
        assert(texts(out@) == texts(o).push(last));
    }
    out
}

/// The runs of a text hold the characters that are kept, in order, and no others; no run is empty.
pub proof fn runs_hold_what_is_kept(s: Seq<char>, kind: RunOf)
    ensures
        joined(runs(s, kind), Seq::empty()) == s.filter(|c: char| kind.keeps(c)),
        forall|i: int| 0 <= i < runs(s, kind).len() ==> (#[trigger] runs(s, kind)[i]).len() > 0,
        s.len() > 0 && kind.keeps(s.last()) ==> runs(s, kind).len() > 0,
    decreases s.len(),
{
    reveal(Seq::filter);
    let none = Seq::<char>::empty();
    if s.len() > 0 {
        runs_hold_what_is_kept(s.drop_last(), kind);
        let before = runs(s.drop_last(), kind);
        let all = runs(s, kind);
        let c = s.last();
        if kind.keeps(c) {
            if before.len() > 0 && s.len() >= 2 && kind.keeps(s[s.len() - 2]) {
                let front = before.drop_last();
                joined_adds_a_part(front, before.last(), none);
                joined_adds_a_part(front, before.last().push(c), none);
                assert(front.push(before.last()) =~= before);
                assert(joined(all, none) =~= joined(before, none).push(c));
            } else {
                joined_adds_a_part(before, seq![c], none);
                assert(joined(all, none) =~= joined(before, none).push(c));
            }
        }
        assert forall|i: int| 0 <= i < all.len() implies (#[trigger] all[i]).len() > 0 by {
            if i < all.len() - 1 || !kind.keeps(c) {
                assert(all[i] == before[i]);
            }
        }
    }
}

/// Every run is made of kept characters only.
pub proof fn runs_are_kept(s: Seq<char>, kind: RunOf)
    ensures
        forall|i: int, k: int|
            0 <= i < runs(s, kind).len() && 0 <= k < runs(s, kind)[i].len() ==> kind.keeps(
                #[trigger] runs(s, kind)[i][k],
            ),
    decreases s.len(),
{
    if s.len() > 0 {
        runs_are_kept(s.drop_last(), kind);
        let before = runs(s.drop_last(), kind);
        let all = runs(s, kind);
        assert forall|i: int, k: int| 0 <= i < all.len() && 0 <= k < all[i].len() implies kind.keeps(
            #[trigger] all[i][k],
        ) by {
            if i < before.len() - 1 || !kind.keeps(s.last()) {
                assert(all[i] == before[i]);
                assert(kind.keeps(before[i][k]));
            } else if i == before.len() - 1 {
                if k < before[i].len() {
                    assert(all[i][k] == before[i][k]);
                    assert(kind.keeps(before[i][k]));
                }
            }
        }
    }
}

/// A text of kept characters only is one run.
pub proof fn kept_text_is_one_run(s: Seq<char>, kind: RunOf)
    requires
        s.len() > 0,
        forall|i: int| 0 <= i < s.len() ==> kind.keeps(#[trigger] s[i]),
    ensures
        runs(s, kind) == seq![s],
    decreases s.len(),
{
    let before = s.drop_last();
    if before.len() > 0 {
        assert forall|i: int| 0 <= i < before.len() implies kind.keeps(#[trigger] before[i]) by {
            assert(before[i] == s[i]);
        }
        kept_text_is_one_run(before, kind);
        assert(kind.keeps(s[s.len() - 2]));
        assert(kind.keeps(s[s.len() - 1]));
        assert(before.push(s.last()) =~= s);
        assert(runs(s, kind) =~= seq![s]);
    } else {
        assert(kind.keeps(s[0]));
        assert(seq![s.last()] =~= s);
        assert(runs(before, kind) =~= Seq::empty());
        assert(runs(s, kind) =~= seq![s]);
    }
}

/// A character that is not kept parts the runs before it from those behind it.
pub proof fn other_characters_part_runs(a: Seq<char>, c: char, b: Seq<char>, kind: RunOf)
    requires
        !kind.keeps(c),
    ensures
        runs(a.push(c) + b, kind) == runs(a, kind) + runs(b, kind),
    decreases b.len(),
{
    let s = a.push(c) + b;
    if b.len() == 0 {
        assert(s =~= a.push(c));
        assert(a.push(c).drop_last() =~= a);
        assert(runs(s, kind) =~= runs(a, kind) + runs(b, kind));
    } else {
        let rest = b.drop_last();
        other_characters_part_runs(a, c, rest, kind);
        assert(s.drop_last() =~= a.push(c) + rest);
        runs_hold_what_is_kept(rest, kind);
        assert(s.last() == b.last());
        if b.len() == 1 {
            assert(s[s.len() - 2] == c);
        } else {
            assert(s[s.len() - 2] == b[b.len() - 2]);
            assert(b[b.len() - 2] == rest.last());
        }
        assert(runs(s, kind) =~= runs(a, kind) + runs(b, kind));
    }
}

/// Whether the only white space of a text are single spaces between its words.
pub open spec fn single_spaced(s: Seq<char>) -> bool {
    forall|i: int|
        0 <= i < s.len() && white_space(#[trigger] s[i]) ==> s[i] == ' ' && 0 < i < s.len() - 1
            && !white_space(s[i - 1]) && !white_space(s[i + 1])
}

/// Words joined by spaces are single-spaced, and have the same words again.
pub proof fn words_join_back(words: Seq<Seq<char>>)
    requires
        forall|i: int| 0 <= i < words.len() ==> (#[trigger] words[i]).len() > 0,
        forall|i: int, k: int|
            0 <= i < words.len() && 0 <= k < words[i].len() ==> !white_space(#[trigger] words[i][k]),
    ensures
        runs(joined(words, " "@), RunOf::Words) == words,
        single_spaced(joined(words, " "@)),
        words.len() > 0 ==> joined(words, " "@).len() > 0 && !white_space(joined(words, " "@).last()),
    decreases words.len(),
{
    reveal_strlit(" ");
    let text = joined(words, " "@);
    if words.len() == 0 {
        assert(runs(text, RunOf::Words) =~= words);
    } else {
        let front = words.drop_last();
        let word = words.last();
        assert(word == words[words.len() - 1]);
        assert forall|i: int| 0 <= i < word.len() implies RunOf::Words.keeps(#[trigger] word[i]) by {
            assert(!white_space(words[words.len() - 1][i]));
        }
        kept_text_is_one_run(word, RunOf::Words);
        assert forall|i: int| 0 <= i < front.len() implies (#[trigger] front[i]).len() > 0 by {
            assert(front[i] == words[i]);
        }
        assert forall|i: int, k: int| 0 <= i < front.len() && 0 <= k < front[i].len() implies !white_space(
            #[trigger] front[i][k],
        ) by {
            assert(!white_space(words[i][k]));
        }
        words_join_back(front);
        if words.len() == 1 {
            assert(text == word);
            assert(seq![word] =~= words);
        } else {
            let before = joined(front, " "@);
            assert(text =~= before.push(' ') + word);
            other_characters_part_runs(before, ' ', word, RunOf::Words);
            assert(front + seq![word] =~= words);
            assert forall|i: int| 0 <= i < text.len() && white_space(#[trigger] text[i]) implies text[i]
                == ' ' && 0 < i < text.len() - 1 && !white_space(text[i - 1]) && !white_space(
                text[i + 1],
            ) by {
                if i < before.len() {
                    assert(text[i] == before[i]);
                    assert(0 < i < before.len() - 1);
                    assert(text[i - 1] == before[i - 1] && text[i + 1] == before[i + 1]);
                } else if i == before.len() {
                    assert(text[i - 1] == before.last());
                    assert(text[i + 1] == word[0]);
                    assert(RunOf::Words.keeps(word[0]));
                } else {
                    assert(text[i] == word[i - before.len() - 1]);
                    assert(RunOf::Words.keeps(word[i - before.len() - 1]));
                }
            }
            assert(text.last() == word.last());
        }
        assert(RunOf::Words.keeps(word[word.len() - 1]));
    }
}

/// The lines of `s`: what stands before, between and after its line feeds.
pub open spec fn lines(s: Seq<char>) -> Seq<Seq<char>>
    decreases s.len(),
{
    if s.len() == 0 {
        seq![Seq::<char>::empty()]
    } else {
        let before = lines(s.drop_last());
        if s.last() == '\n' {
            before.push(Seq::empty())
        } else {
            before.drop_last().push(before.last().push(s.last()))
        }
    }
}

/// The lines of `s`: what stands before, between and after its line feeds.
pub fn split_lines(s: &str) -> (r: Vec<String>)
    ensures
        texts(r@) == lines(s@),
{
    let chars = chars_of(s);
    let mut out: Vec<String> = Vec::new();
    let mut cur = String::new();
    assert(texts(out@).push(cur@) == seq![Seq::<char>::empty()]);
    for i in 0..chars.len()
        invariant
            lines(chars@.take(i as int)) == texts(out@).push(cur@),
    {
        let c = chars[i];
        assert(chars@.take(i + 1).drop_last() == chars@.take(i as int));
        let ghost o = out@;
        let ghost line = cur@;
        assert(texts(o).push(line).drop_last() == texts(o));
        if c == '\n' {
            out.push(cur);
            cur = String::new();
            assert(texts(out@) == texts(o).push(line));
        } else {
            cur.push(c);
        }
    }
    assert(chars@.take(chars@.len() as int) == chars@);
    let ghost o = out@;
    let ghost line = cur@;
    out.push(cur);
    assert(texts(out@) == texts(o).push(line));
    out
}

/// The parts with `sep` between each two of them.
pub open spec fn joined(parts: Seq<Seq<char>>, sep: Seq<char>) -> Seq<char>
    decreases parts.len(),
{
    if parts.len() == 0 {
        Seq::empty()
    } else {
        let before = joined(parts.drop_last(), sep);
        if parts.len() == 1 {
            parts.last()
        } else {
            before + sep + parts.last()
        }
    }
}

/// The parts with `sep` between each two of them.
pub fn join_texts(parts: &Vec<String>, sep: &str) -> (r: String)
    ensures
        r@ == joined(texts(parts@), sep@),
{
    let mut out = String::new();
    for i in 0..parts.len()
        invariant
            out@ == joined(texts(parts@).take(i as int), sep@),
    {
        let ghost all = texts(parts@);
        assert(all.take(i + 1).drop_last() == all.take(i as int));
        if i > 0 {
            out.append(sep);
        }
        out.append(parts[i].as_str());
        assert(all.take(1).len() == 1);
        if i == 0 {
            assert(Seq::<char>::empty() + parts@[0]@ == parts@[0]@);
        }
    }
    assert(texts(parts@).take(parts@.len() as int) == texts(parts@));
    out
}

/// Joining one part more puts the separator and the part behind what was joined; a single part is joined as it is.
pub proof fn joined_adds_a_part(parts: Seq<Seq<char>>, part: Seq<char>, sep: Seq<char>)
    ensures
        joined(parts.push(part), sep) == if parts.len() == 0 {
            part
        } else {
            joined(parts, sep) + sep + part
        },
{
    assert(parts.push(part).drop_last() =~= parts);
}

/// Every part stands in what is joined.
pub proof fn joined_holds_every_part(parts: Seq<Seq<char>>, sep: Seq<char>, i: int)
    requires
        0 <= i < parts.len(),
    ensures
        occurs(joined(parts, sep), parts[i]),
    decreases parts.len(),
{
    let all = joined(parts, sep);
    if i == parts.len() - 1 {
        let at = all.len() - parts[i].len();
        assert(all.subrange(at, at + parts[i].len()) =~= parts[i]);
    } else {
        let front = parts.drop_last();
        joined_holds_every_part(front, sep, i);
        let before = joined(front, sep);
        let at = choose|at: int|
            0 <= at <= before.len() - front[i].len() && #[trigger] before.subrange(
                at,
                at + front[i].len(),
            ) == front[i];
        assert(all.subrange(at, at + parts[i].len()) =~= before.subrange(at, at + front[i].len()));
    }
}

/// The lines of a text, joined by line feeds, are the text.
pub proof fn lines_join_back(s: Seq<char>)
    ensures
        joined(lines(s), seq!['\n']) == s,
        lines(s).len() > 0,
    decreases s.len(),
{
    let feed = seq!['\n'];
    if s.len() > 0 {
        lines_join_back(s.drop_last());
        let before = lines(s.drop_last());
        let front = before.drop_last();
        if s.last() == '\n' {
            joined_adds_a_part(before, Seq::empty(), feed);
            assert(joined(lines(s), feed) =~= joined(before, feed).push('\n'));
        } else {
            joined_adds_a_part(front, before.last(), feed);
            joined_adds_a_part(front, before.last().push(s.last()), feed);
            assert(front.push(before.last()) =~= before);
            assert(joined(lines(s), feed) =~= joined(before, feed).push(s.last()));
        }
        assert(s.drop_last().push(s.last()) =~= s);
    }
}

/// No line holds a line feed.
pub proof fn lines_hold_no_line_feed(s: Seq<char>)
    ensures
        forall|i: int| 0 <= i < lines(s).len() ==> !(#[trigger] lines(s)[i]).contains('\n'),
        lines(s).len() > 0,
    decreases s.len(),
{
    if s.len() > 0 {
        lines_hold_no_line_feed(s.drop_last());
        let before = lines(s.drop_last());
        let all = lines(s);
        assert forall|i: int| 0 <= i < all.len() implies !(#[trigger] all[i]).contains('\n') by {
            if i < before.len() - 1 {
                assert(all[i] == before[i]);
            } else if s.last() == '\n' {
                if i == before.len() - 1 {
                    assert(all[i] == before[i]);
                }
            } else {
                let line = before.last();
                assert(line == before[before.len() - 1]);
                assert(all[i] == line.push(s.last()));
                if all[i].contains('\n') {
                    let k = choose|k: int| 0 <= k < all[i].len() && all[i][k] == '\n';
                    assert(line[k] == '\n');
                }
            }
        }
    } else {
        assert(lines(s)[0] == Seq::<char>::empty());
    }
}

/// The items of `s` without those that stood earlier already.
pub open spec fn distinct<A>(s: Seq<A>) -> Seq<A>
    decreases s.len(),
{
    if s.len() == 0 {
        s
    } else {
        let before = distinct(s.drop_last());
        if before.contains(s.last()) {
            before
        } else {
            before.push(s.last())
        }
    }
}

/// Dropping repetitions leaves the same items, each once.
pub proof fn lemma_distinct<A>(s: Seq<A>)
    ensures
        distinct(s).no_duplicates(),
        forall|x: A| distinct(s).contains(x) == s.contains(x),
        distinct(s).len() <= s.len(),
    decreases s.len(),
{
    if s.len() > 0 {
        lemma_distinct(s.drop_last());
        let before = distinct(s.drop_last());
        let last = s.last();
        assert forall|x: A| distinct(s).contains(x) == s.contains(x) by {
            if s.contains(x) {
                let i = choose|i: int| 0 <= i < s.len() && s[i] == x;
                if i < s.len() - 1 {
                    assert(s.drop_last()[i] == x);
                    assert(s.drop_last().contains(x));
                    assert(before.contains(x));
                    let k = choose|k: int| 0 <= k < before.len() && before[k] == x;
                    assert(distinct(s)[k] == x);
                } else if !before.contains(last) {
                    assert(distinct(s)[before.len() as int] == x);
                }
            }
            if distinct(s).contains(x) {
                let k = choose|k: int| 0 <= k < distinct(s).len() && distinct(s)[k] == x;
                if k < before.len() {
                    assert(before[k] == x);
                    assert(s.drop_last().contains(x));
                    let i = choose|i: int| 0 <= i < s.drop_last().len() && s.drop_last()[i] == x;
                    assert(s[i] == x);
                } else {
                    assert(s[s.len() - 1] == x);
                }
            }
        }
    }
}

/// Items keep the order in which they first stand: more items behind a list only add behind what is there.
pub proof fn distinct_items_keep_their_order<A>(a: Seq<A>, b: Seq<A>)
    ensures
        distinct(a).is_prefix_of(distinct(a + b)),
    decreases b.len(),
{
    if b.len() == 0 {
        assert(a + b =~= a);
    } else {
        distinct_items_keep_their_order(a, b.drop_last());
        assert((a + b).drop_last() =~= a + b.drop_last());
    }
}

/// The texts of a list without those that stood earlier already.
pub fn distinct_texts(list: &Vec<String>) -> (r: Vec<String>)
    ensures
        texts(r@) == distinct(texts(list@)),
{
    let mut out: Vec<String> = Vec::new();
    for i in 0..list.len()
        invariant
            texts(out@) == distinct(texts(list@).take(i as int)),
    {
        let ghost all = texts(list@);
        assert(all.take(i + 1).drop_last() == all.take(i as int));
        if !holds_text(&out, &list[i]) {
            let ghost o = out@;
            out.push(list[i].clone());
            assert(texts(out@) == texts(o).push(list@[i as int]@));
        }
    }
    assert(texts(list@).take(list@.len() as int) == texts(list@));
    out
}

// ---- numbers ---------------------------------------------------------------------

/// The decimal digit `d`.
pub open spec fn digit(d: nat) -> char {
    ('0' as u32 + d) as char
}

/// `n` in decimal.
pub open spec fn decimal(n: nat) -> Seq<char>
    decreases n,
{
    if n < 10 {
        seq![digit(n)]
    } else {
        decimal(n / 10).push(digit(n % 10))
    }
}

/// The last `width` decimal digits of `n`, with zeros in front where there are fewer.
pub open spec fn fixed_decimal(n: nat, width: nat) -> Seq<char>
    decreases width,
{
    if width == 0 {
        Seq::empty()
    } else {
        fixed_decimal(n / 10, (width - 1) as nat).push(digit(n % 10))
    }
}

/// The number that a text of decimal digits stands for.
pub open spec fn decimal_value(s: Seq<char>) -> int
    decreases s.len(),
{
    if s.len() == 0 {
        0
    } else {
        10 * decimal_value(s.drop_last()) + (s.last() as int - '0' as int)
    }
}

/// A decimal form reads back as the number, is made of digits, and has no zero in front but for zero itself.
pub proof fn decimals_read_back(n: nat)
    ensures
        decimal_value(decimal(n)) == n,
        forall|i: int| 0 <= i < decimal(n).len() ==> '0' <= #[trigger] decimal(n)[i] <= '9',
        decimal(n).len() > 0,
        n > 0 ==> decimal(n)[0] != '0',
    decreases n,
{
    let s = decimal(n);
    if n < 10 {
        assert(s.drop_last() =~= Seq::empty());
        assert(decimal_value(Seq::<char>::empty()) == 0);
        assert(s.last() == digit(n));
    } else {
        decimals_read_back(n / 10);
        assert(s.drop_last() =~= decimal(n / 10));
        assert(s.last() == digit(n % 10));
        assert(s[0] == decimal(n / 10)[0]);
        assert forall|i: int| 0 <= i < s.len() implies '0' <= #[trigger] s[i] <= '9' by {
            if i < s.len() - 1 {
                assert(s[i] == decimal(n / 10)[i]);
            }
        }
    }
}

/// A form of fixed width reads back as the number, where that fits, and has that width.
pub proof fn fixed_decimals_read_back(n: nat, width: nat)
    ensures
        fixed_decimal(n, width).len() == width,
        width > 0 ==> fixed_decimal(n, width).last() as int == '0' as int + n % 10,
        width > 0 ==> fixed_decimal(n, width).drop_last() == fixed_decimal(n / 10, (width - 1) as nat),
        width == 2 && n < 100 ==> decimal_value(fixed_decimal(n, width)) == n,
        width == 4 && n < 10_000 ==> decimal_value(fixed_decimal(n, width)) == n,
        width == 6 && n < 1_000_000 ==> decimal_value(fixed_decimal(n, width)) == n,
    decreases width,
{
    if width > 0 {
        fixed_decimals_read_back(n / 10, (width - 1) as nat);
        let s = fixed_decimal(n, width);
        assert(s.drop_last() =~= fixed_decimal(n / 10, (width - 1) as nat));
        if width <= 6 {
            lemma_fixed_value(n, width);
        }
    }
}

proof fn lemma_fixed_value(n: nat, width: nat)
    requires
        width <= 6,
    ensures
        width == 0 && n < 1 || width == 1 && n < 10 || width == 2 && n < 100 || width == 3 && n < 1000
            || width == 4 && n < 10_000 || width == 5 && n < 100_000 || width == 6 && n < 1_000_000
            ==> decimal_value(fixed_decimal(n, width)) == n,
    decreases width,
{
    if width > 0 {
        lemma_fixed_value(n / 10, (width - 1) as nat);
        let s = fixed_decimal(n, width);
        assert(s.drop_last() =~= fixed_decimal(n / 10, (width - 1) as nat));
        assert(s.last() == digit(n % 10));
    }
}

/// Different numbers have different decimal forms.
pub proof fn lemma_decimal_injective(a: nat, b: nat)
    requires
        decimal(a) == decimal(b),
    ensures
        a == b,
    decreases a,
{
    lemma_decimal_len(a);
    lemma_decimal_len(b);
    let x = decimal(a);
    let y = decimal(b);
    if a < 10 {
        assert(b < 10);
        assert(x[0] == y[0]);
    } else {
        assert(b >= 10);
        assert(x.last() == digit(a % 10));
        assert(y.last() == digit(b % 10));
        assert(x.drop_last() =~= decimal(a / 10));
        assert(y.drop_last() =~= decimal(b / 10));
        lemma_decimal_injective(a / 10, b / 10);
    }
}

proof fn lemma_decimal_len(n: nat)
    ensures
        decimal(n).len() >= 1,
        n >= 10 ==> decimal(n).len() >= 2,
        n < 10 ==> decimal(n).len() == 1,
    decreases n,
{
    if n >= 10 {
        lemma_decimal_len(n / 10);
    }
}

/// The decimal digit `d`.
pub fn digit_char(d: u64) -> (r: char)
    requires
        d < 10,
    ensures
        r == digit(d as nat),
{
    match d {
        0 => '0',
        1 => '1',
        2 => '2',
        3 => '3',
        4 => '4',
        5 => '5',
        6 => '6',
        7 => '7',
        8 => '8',
        _ => '9',
    }
}

/// `n` in decimal.
pub fn decimal_text(n: u64) -> (r: String)
    ensures
        r@ == decimal(n as nat),
    decreases n,
{
    if n < 10 {
        let mut s = String::new();
        s.push(digit_char(n));
        assert(s@ == seq![digit(n as nat)]);
        s
    } else {
        let mut s = decimal_text(n / 10);
        s.push(digit_char(n % 10));
        s
    }
}

} // verus!
