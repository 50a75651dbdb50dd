//! Character-level helpers shared by the Leather front end and the module scanner.
use vstd::prelude::*;

verus! {

/// Whether a character beyond ASCII has the Unicode `Alphabetic` property, as
/// `char::is_alphabetic` reports it.
pub uninterp spec fn non_ascii_alphabetic(c: char) -> bool;

/// Whether `c` has the Unicode `Alphabetic` property: among ASCII characters,
/// the letters `a`-`z` and `A`-`Z`; beyond ASCII, as the Unicode tables say.
pub open spec fn char_is_alphabetic(c: char) -> bool {
    if (c as u32) < 128 {
        ('a' <= c && c <= 'z') || ('A' <= c && c <= 'Z')
    } else {
        non_ascii_alphabetic(c)
    }
}

/// Whether `c` has the Unicode `White_Space` property, as listed in the Unicode
/// Character Database (PropList.txt): tab to carriage return, space, next line,
/// no-break space, the Ogham space mark, the en quad to the hair space, the line
/// and paragraph separators, the narrow no-break space, the medium mathematical
/// space and the ideographic space.
pub open spec fn char_is_whitespace(c: char) -> bool {
    let n = c as u32;
    ||| (9 <= n && n <= 13)
    ||| n == 32
    ||| n == 0x85
    ||| n == 0xa0
    ||| n == 0x1680
    ||| (0x2000 <= n && n <= 0x200a)
    ||| n == 0x2028
    ||| n == 0x2029
    ||| n == 0x202f
    ||| n == 0x205f
    ||| n == 0x3000
}

/// Calls `char::is_alphabetic`, which is true of the characters with the
/// Unicode `Alphabetic` property. The contract states the ASCII characters (the
/// letters and nothing else; std answers these by a range test) and names the
/// answer for the others: `non_ascii_alphabetic(c)`, a function of `c` alone,
/// left to the Unicode tables that std follows.
#[verifier::external_body]
pub(crate) fn is_alphabetic(c: char) -> (r: bool)
    ensures
        r == char_is_alphabetic(c),
        (c as u32) >= 128 ==> r == non_ascii_alphabetic(c),
{
    c.is_alphabetic()
}

/// Whether `c` has the Unicode `White_Space` property, as `char::is_whitespace` answers.
pub(crate) fn is_whitespace(c: char) -> (r: bool)
    ensures
        r == char_is_whitespace(c),
{
    let n = c as u32;
    (9 <= n && n <= 13) || n == 32 || n == 0x85 || n == 0xa0 || n == 0x1680 || (0x2000 <= n && n <= 0x200a)
        || n == 0x2028 || n == 0x2029 || n == 0x202f || n == 0x205f || n == 0x3000
}

/// Calls `String::push`, which appends one character at the end of the string.
#[verifier::external_body]
pub(crate) fn push_char(s: &mut String, c: char)
    ensures
        final(s)@ == old(s)@.push(c),
{
    s.push(c)
}

/// The characters of `s`, in order.
pub fn str_chars(s: &str) -> (v: Vec<char>)
    ensures
        v@ == s@,
{
    let mut v: Vec<char> = Vec::new();
    for c in it: s.chars()
        invariant
            v@ == it.seq().take(it.index() as int),
            it.seq() == s@,
    {
        v.push(c);
    }
    v
}

/// A string holding the characters of `chars`, in order.
pub fn string_from_chars(chars: &[char]) -> (s: String)
    ensures
        s@ == chars@,
{
    let mut s = String::new();
    let mut i: usize = 0;
    while i < chars.len()
        invariant
            i <= chars.len(),
            s@ == chars@.take(i as int),
        decreases chars.len() - i,
    {
        push_char(&mut s, chars[i]);
        i = i + 1;
        assert(s@ =~= chars@.take(i as int));
    }
    assert(chars@.take(chars.len() as int) =~= chars@);
    s
}

/// Whether the two character sequences are equal.
pub fn chars_eq(a: &[char], b: &[char]) -> (r: bool)
    ensures
        r == (a@ == b@),
{
    if a.len() != b.len() {
        return false;
    }
    let mut i: usize = 0;
    while i < a.len()
        invariant
            i <= a.len(),
            a.len() == b.len(),
            forall|j: int| 0 <= j < i ==> a@[j] == b@[j],
        decreases a.len() - i,
    {
        if a[i] != b[i] {
            return false;
        }
        i = i + 1;
    }
    assert(a@ =~= b@);
    true
}


// ---------------------------------------------------------------------------------------------
// Lines, trimming and splitting, as `str::lines`, `str::trim` and `str::splitn(2, ' ')` do them.

/// A line without the carriage return that ended it before its newline.
pub open spec fn strip_cr(l: Seq<char>) -> Seq<char> {
    if l.len() > 0 && l.last() == '\r' {
        l.drop_last()
    } else {
        l
    }
}

/// The lines of `s` from index `i` on, where `cur` holds the part of the current line read so far.
pub open spec fn lines_from(s: Seq<char>, i: int, cur: Seq<char>) -> Seq<Seq<char>>
    decreases s.len() - i,
{
    if i < 0 || i >= s.len() {
        if cur.len() > 0 {
            seq![cur]
        } else {
            Seq::empty()
        }
    } else if s[i] == '\n' {
        seq![strip_cr(cur)] + lines_from(s, i + 1, Seq::empty())
    } else {
        lines_from(s, i + 1, cur.push(s[i]))
    }
}

/// The lines of `s`: split at each newline, without a last empty line, each
/// without a `\r` that stood just before its newline.
pub open spec fn lines(s: Seq<char>) -> Seq<Seq<char>> {
    lines_from(s, 0, Seq::empty())
}

/// `s` without its leading whitespace.
pub open spec fn trim_start(s: Seq<char>) -> Seq<char>
    decreases s.len(),
{
    if s.len() > 0 && char_is_whitespace(s[0]) {
        trim_start(s.drop_first())
    } else {
        s
    }
}

/// `s` without its trailing whitespace.
pub open spec fn trim_end(s: Seq<char>) -> Seq<char>
    decreases s.len(),
{
    if s.len() > 0 && char_is_whitespace(s.last()) {
        trim_end(s.drop_last())
    } else {
        s
    }
}

/// `s` without leading and trailing whitespace.
pub open spec fn trim(s: Seq<char>) -> Seq<char> {
    trim_end(trim_start(s))
}

/// Whether `s` begins with `p`.
pub open spec fn starts_with(s: Seq<char>, p: Seq<char>) -> bool {
    p.len() <= s.len() && s.take(p.len() as int) == p
}

/// Everything after the first space of `s`; `None` when `s` has no space.
pub open spec fn after_first_space(s: Seq<char>) -> Option<Seq<char>>
    decreases s.len(),
{
    if s.len() == 0 {
        None
    } else if s[0] == ' ' {
        Some(s.drop_first())
    } else {
        after_first_space(s.drop_first())
    }
}

/// The contents of a sequence of character vectors.
pub open spec fn char_seqs(v: Seq<Vec<char>>) -> Seq<Seq<char>> {
    v.map_values(|x: Vec<char>| x@)
}

/// The lines of `s`.
pub fn split_lines(s: &[char]) -> (ls: Vec<Vec<char>>)
    ensures
        char_seqs(ls@) == lines(s@),
{
    let mut ls: Vec<Vec<char>> = Vec::new();
    let mut cur: Vec<char> = Vec::new();
    let mut i: usize = 0;
    while i < s.len()
        invariant
            i <= s.len(),
            char_seqs(ls@) + lines_from(s@, i as int, cur@) == lines(s@),
        decreases s.len() - i,
    {
        if s[i] == '\n' {
            let ghost before = char_seqs(ls@);
            let ghost c = cur@;
            if cur.len() > 0 && cur[cur.len() - 1] == '\r' {
                cur.pop();
            }
            assert(cur@ == strip_cr(c));
            ls.push(cur);
            cur = Vec::new();
            assert(char_seqs(ls@) =~= before.push(strip_cr(c)));
            assert(before + lines_from(s@, i as int, c) =~= char_seqs(ls@) + lines_from(
                s@,
                i + 1,
                cur@,
            ));
        } else {
            cur.push(s[i]);
        }
        i = i + 1;
    }
    if cur.len() > 0 {
        let ghost before = char_seqs(ls@);
        ls.push(cur);
        assert(char_seqs(ls@) =~= before + seq![cur@]);
    } else {
        assert(char_seqs(ls@) =~= char_seqs(ls@) + Seq::<Seq<char>>::empty());
    }
    ls
}

pub proof fn lemma_trim_start_skip(s: Seq<char>, i: int)
    requires
        0 <= i <= s.len(),
        forall|j: int| 0 <= j < i ==> #[trigger] char_is_whitespace(s[j]),
    ensures
        trim_start(s) == trim_start(s.skip(i)),
    decreases i,
{
    if i > 0 {
        assert(s.drop_first().skip(i - 1) =~= s.skip(i));
        assert forall|j: int| 0 <= j < i - 1 implies #[trigger] char_is_whitespace(s.drop_first()[j]) by {
            assert(s.drop_first()[j] == s[j + 1]);
        }
        lemma_trim_start_skip(s.drop_first(), i - 1);
    } else {
        assert(s.skip(0) =~= s);
    }
}

pub proof fn lemma_trim_end_take(s: Seq<char>, e: int)
    requires
        0 <= e <= s.len(),
        forall|j: int| e <= j < s.len() ==> #[trigger] char_is_whitespace(s[j]),
    ensures
        trim_end(s) == trim_end(s.take(e)),
    decreases s.len() - e,
{
    if e < s.len() {
        assert(s.drop_last().take(e) =~= s.take(e));
        lemma_trim_end_take(s.drop_last(), e);
    } else {
        assert(s.take(e) =~= s);
    }
}

/// `s` without leading and trailing whitespace.
pub fn trim_chars(s: &[char]) -> (t: Vec<char>)
    ensures
        t@ == trim(s@),
{
    let mut start: usize = 0;
    while start < s.len() && is_whitespace(s[start])
        invariant
            start <= s.len(),
            forall|j: int| 0 <= j < start ==> #[trigger] char_is_whitespace(s@[j]),
        decreases s.len() - start,
    {
        start = start + 1;
    }
    proof {
        lemma_trim_start_skip(s@, start as int);
    }
    let ghost rest = s@.skip(start as int);
    assert(trim_start(rest) == rest);
    let mut end: usize = s.len();
    while end > start && is_whitespace(s[end - 1])
        invariant
            start <= end <= s.len(),
            forall|j: int| end <= j < s.len() ==> #[trigger] char_is_whitespace(s@[j]),
        decreases end,
    {
        end = end - 1;
    }
    proof {
        assert forall|j: int| end - start <= j < rest.len() implies #[trigger] char_is_whitespace(
            rest[j],
        ) by {
            assert(rest[j] == s@[j + start]);
        }
        lemma_trim_end_take(rest, end - start);
    }
    let mut t: Vec<char> = Vec::new();
    let mut i: usize = start;
    while i < end
        invariant
            start <= i <= end,
            end <= s.len(),
            t@ == s@.subrange(start as int, i as int),
        decreases end - i,
    {
        t.push(s[i]);
        i = i + 1;
        assert(t@ =~= s@.subrange(start as int, i as int));
    }
    assert(rest.take(end - start) =~= t@);
    t
}

/// Whether `s` begins with `p`.
pub fn chars_start_with(s: &[char], p: &[char]) -> (r: bool)
    ensures
        r == starts_with(s@, p@),
{
    if p.len() > s.len() {
        return false;
    }
    let mut i: usize = 0;
    while i < p.len()
        invariant
            i <= p.len() <= s.len(),
            forall|j: int| 0 <= j < i ==> s@[j] == p@[j],
        decreases p.len() - i,
    {
        if s[i] != p[i] {
            assert(s@.take(p.len() as int)[i as int] != p@[i as int]);
            return false;
        }
        i = i + 1;
    }
    assert(s@.take(p.len() as int) =~= p@);
    true
}

pub proof fn lemma_after_first_space(s: Seq<char>, i: int)
    requires
        0 <= i <= s.len(),
        forall|j: int| 0 <= j < i ==> s[j] != ' ',
    ensures
        after_first_space(s) == after_first_space(s.skip(i)),
    decreases i,
{
    if i > 0 {
        assert(s.drop_first().skip(i - 1) =~= s.skip(i));
        lemma_after_first_space(s.drop_first(), i - 1);
    } else {
        assert(s.skip(0) =~= s);
    }
}

/// Everything after the first space of `s`, if it has one.
pub fn chars_after_first_space(s: &[char]) -> (r: Option<Vec<char>>)
    ensures
        match after_first_space(s@) {
            Some(rest) => r matches Some(v) && v@ == rest,
            None => r is None,
        },
{
    let mut i: usize = 0;
    while i < s.len() && s[i] != ' '
        invariant
            i <= s.len(),
            forall|j: int| 0 <= j < i ==> s@[j] != ' ',
        decreases s.len() - i,
    {
        i = i + 1;
    }
    proof {
        lemma_after_first_space(s@, i as int);
    }
    if i == s.len() {
        assert(s@.skip(i as int) =~= Seq::<char>::empty());
        return None;
    }
    let mut v: Vec<char> = Vec::new();
    let mut j: usize = i + 1;
    while j < s.len()
        invariant
            i < j <= s.len(),
            v@ == s@.subrange(i + 1, j as int),
        decreases s.len() - j,
    {
        v.push(s[j]);
        j = j + 1;
        assert(v@ =~= s@.subrange(i + 1, j as int));
    }
    assert(s@.skip(i as int).drop_first() =~= v@);
    Some(v)
}


// ---------------------------------------------------------------------------------------------
// Splitting at spaces and at whitespace, as `str::splitn(n, ' ')` and `str::split_whitespace` do.

/// The index of the first space of `s` at or after `i`.
pub open spec fn space_index(s: Seq<char>, i: int) -> Option<int>
    decreases s.len() - i,
{
    if i < 0 || i >= s.len() {
        None
    } else if s[i] == ' ' {
        Some(i)
    } else {
        space_index(s, i + 1)
    }
}

/// `s` split at single spaces into at most `n` parts, the last part holding the rest.
pub open spec fn split_spaces(s: Seq<char>, n: nat) -> Seq<Seq<char>>
    decreases s.len(), n,
{
    if n <= 1 {
        seq![s]
    } else {
        match space_index(s, 0) {
            None => seq![s],
            Some(i) => {
                if 0 <= i < s.len() {
                    seq![s.take(i)] + split_spaces(s.skip(i + 1), (n - 1) as nat)
                } else {
                    seq![s]
                }
            },
        }
    }
}

/// Whether `c` separates words: a space, or any character with the `White_Space` property.
pub open spec fn is_word_break(c: char) -> bool {
    c == ' ' || char_is_whitespace(c)
}

/// The words of `s` from index `i` on, `cur` holding the part of the current word read so far.
pub open spec fn words_from(s: Seq<char>, i: int, cur: Seq<char>) -> Seq<Seq<char>>
    decreases s.len() - i,
{
    if i < 0 || i >= s.len() {
        if cur.len() > 0 {
            seq![cur]
        } else {
            Seq::empty()
        }
    } else if is_word_break(s[i]) {
        if cur.len() > 0 {
            seq![cur] + words_from(s, i + 1, Seq::empty())
        } else {
            words_from(s, i + 1, Seq::empty())
        }
    } else {
        words_from(s, i + 1, cur.push(s[i]))
    }
}

/// The maximal runs of non-whitespace characters of `s`.
pub open spec fn words(s: Seq<char>) -> Seq<Seq<char>> {
    words_from(s, 0, Seq::empty())
}

pub proof fn lemma_space_index(s: Seq<char>, i: int)
    requires
        0 <= i,
    ensures
        match space_index(s, i) {
            Some(j) => i <= j < s.len() && s[j] == ' ' && forall|t: int| i <= t < j ==> s[t] != ' ',
            None => forall|t: int| i <= t < s.len() ==> s[t] != ' ',
        },
    decreases s.len() - i,
{
    if i < s.len() && s[i] != ' ' {
        lemma_space_index(s, i + 1);
    }
}

/// The parts of `s` split at single spaces, at most `n` of them.
pub fn split_at_spaces(s: &[char], n: usize) -> (parts: Vec<Vec<char>>)
    requires
        n >= 1,
    ensures
        char_seqs(parts@) == split_spaces(s@, n as nat),
{
    let mut parts: Vec<Vec<char>> = Vec::new();
    let mut cur: Vec<char> = Vec::new();
    let mut left: usize = n;
    let mut i: usize = 0;
    proof {
        assert(s@.skip(0) =~= s@);
    }
    while i < s.len()
        invariant
            i <= s.len(),
            1 <= left <= n,
            char_seqs(parts@) + split_spaces(cur@ + s@.skip(i as int), left as nat) == split_spaces(s@, n as nat),
            left == 1 || (forall|t: int| 0 <= t < cur@.len() ==> cur@[t] != ' '),
        decreases s.len() - i,
    {
        let ghost rest = s@.skip(i as int);
        let ghost whole = cur@ + rest;
        if s[i] == ' ' && left > 1 {
            proof {
                lemma_space_index(whole, 0);
                assert(whole[cur@.len() as int] == ' ');
                assert forall|t: int| 0 <= t < cur@.len() implies whole[t] != ' ' by {
                    assert(whole[t] == cur@[t]);
                }
                assert(space_index(whole, 0) == Some(cur@.len() as int)) by {
                    match space_index(whole, 0) {
                        Some(j) => {
                            if j < cur@.len() {
                                assert(whole[j] == cur@[j]);
                            }
                        },
                        None => {},
                    }
                }
                assert(whole.take(cur@.len() as int) =~= cur@);
                assert(whole.skip((cur@.len() + 1) as int) =~= Seq::<char>::empty() + s@.skip(i + 1));
            }
            let ghost before = char_seqs(parts@);
            let ghost c = cur@;
            parts.push(cur);
            cur = Vec::new();
            left = left - 1;
            assert(char_seqs(parts@) =~= before.push(c));
            assert(cur@ + s@.skip(i + 1) =~= s@.skip(i + 1));
        } else {
            cur.push(s[i]);
            proof {
                assert(cur@ + s@.skip(i + 1) =~= whole);
            }
        }
        i = i + 1;
    }
    proof {
        assert(s@.skip(s.len() as int) =~= Seq::<char>::empty());
        assert(cur@ + s@.skip(s.len() as int) =~= cur@);
        if left > 1 {
            lemma_space_index(cur@, 0);
            assert(space_index(cur@, 0) is None);
        }
    }
    let ghost before = char_seqs(parts@);
    parts.push(cur);
    assert(char_seqs(parts@) =~= before + seq![cur@]);
    parts
}


/// The words of `s`.
pub fn split_words(s: &[char]) -> (ws: Vec<Vec<char>>)
    ensures
        char_seqs(ws@) == words(s@),
{
    let mut ws: Vec<Vec<char>> = Vec::new();
    let mut cur: Vec<char> = Vec::new();
    let mut i: usize = 0;
    while i < s.len()
        invariant
            i <= s.len(),
            char_seqs(ws@) + words_from(s@, i as int, cur@) == words(s@),
        decreases s.len() - i,
    {
        let c = s[i];
        let ghost before_all = char_seqs(ws@);
        if c == ' ' || is_whitespace(c) {
            assert(is_word_break(s@[i as int]));
            if cur.len() > 0 {
                let ghost before = char_seqs(ws@);
                let ghost w = cur@;
                ws.push(cur);
                cur = Vec::new();
                assert(char_seqs(ws@) =~= before.push(w));
                assert(before + (seq![w] + words_from(s@, i + 1, Seq::empty())) =~= char_seqs(ws@)
                    + words_from(s@, i + 1, cur@));
            } else {
                assert(words_from(s@, i as int, cur@) == words_from(s@, i + 1, Seq::empty()));
                assert(cur@ =~= Seq::<char>::empty());
            }
        } else {
            assert(!is_word_break(s@[i as int]));
            let ghost w = cur@;
            cur.push(c);
            assert(words_from(s@, i as int, w) == words_from(s@, i + 1, cur@));
        }
        i = i + 1;
    }
    if cur.len() > 0 {
        let ghost before = char_seqs(ws@);
        ws.push(cur);
        assert(char_seqs(ws@) =~= before + seq![cur@]);
    } else {
        assert(char_seqs(ws@) + Seq::<Seq<char>>::empty() =~= char_seqs(ws@));
    }
    ws
}


/// Appends the characters of `t` to `s`.
pub fn push_chars(s: &mut String, t: &[char])
    ensures
        final(s)@ == old(s)@ + t@,
{
    let mut i: usize = 0;
    while i < t.len()
        invariant
            i <= t.len(),
            s@ == old(s)@ + t@.take(i as int),
        decreases t.len() - i,
    {
        push_char(s, t[i]);
        i = i + 1;
        assert(s@ =~= old(s)@ + t@.take(i as int));
    }
    assert(t@.take(t.len() as int) =~= t@);
}

/// Appends `t` to `s`.
pub fn push_string(s: &mut String, t: &String)
    ensures
        final(s)@ == old(s)@ + t@,
{
    let chars = str_chars(t.as_str());
    push_chars(s, chars.as_slice());
}


/// Appends the characters of `t` to `s`.
pub fn push_str(s: &mut String, t: &str)
    ensures
        final(s)@ == old(s)@ + t@,
{
    let chars = str_chars(t);
    push_chars(s, chars.as_slice());
}


// ---------------------------------------------------------------------------------------------
// Lemmas on lines, parts and words of concatenated texts.

pub proof fn lemma_lines_shift(x: Seq<char>, y: Seq<char>, j: int, cur: Seq<char>)
    requires
        0 <= j <= y.len(),
    ensures
        lines_from(x + y, x.len() + j, cur) == lines_from(y, j, cur),
    decreases y.len() - j,
{
    if j < y.len() {
        assert((x + y)[x.len() + j] == y[j]);
        if y[j] == '\n' {
            lemma_lines_shift(x, y, j + 1, Seq::empty());
        } else {
            lemma_lines_shift(x, y, j + 1, cur.push(y[j]));
        }
    }
}

pub proof fn lemma_lines_concat_from(a: Seq<char>, b: Seq<char>, i: int, cur: Seq<char>)
    requires
        a.len() > 0,
        a.last() == '\n',
        0 <= i <= a.len(),
        i < a.len() || cur.len() == 0,
    ensures
        lines_from(a + b, i, cur) == lines_from(a, i, cur) + lines(b),
    decreases a.len() - i,
{
    if i < a.len() {
        assert((a + b)[i] == a[i]);
        if a[i] == '\n' {
            lemma_lines_concat_from(a, b, i + 1, Seq::empty());
            assert(lines_from(a + b, i, cur) == seq![strip_cr(cur)] + lines_from(a + b, i + 1, Seq::empty()));
            assert(lines_from(a, i, cur) == seq![strip_cr(cur)] + lines_from(a, i + 1, Seq::empty()));
            assert(seq![strip_cr(cur)] + (lines_from(a, i + 1, Seq::empty()) + lines(b)) =~= (seq![strip_cr(cur)]
                + lines_from(a, i + 1, Seq::empty())) + lines(b));
        } else {
            assert(a[a.len() - 1] == '\n');
            assert(i + 1 < a.len());
            lemma_lines_concat_from(a, b, i + 1, cur.push(a[i]));
            assert(lines_from(a + b, i, cur) == lines_from(a + b, i + 1, cur.push(a[i])));
            assert(lines_from(a, i, cur) == lines_from(a, i + 1, cur.push(a[i])));
        }
    } else {
        assert(cur =~= Seq::<char>::empty());
        lemma_lines_shift(a, b, 0, cur);
        assert(lines_from(a, i, cur) =~= Seq::<Seq<char>>::empty());
        assert(Seq::<Seq<char>>::empty() + lines(b) =~= lines(b));
    }
}

/// The lines of complete lines followed by more text are those lines, then the lines of the rest.
pub proof fn lemma_lines_concat(a: Seq<char>, b: Seq<char>)
    requires
        a.len() == 0 || a.last() == '\n',
    ensures
        lines(a + b) == lines(a) + lines(b),
{
    if a.len() == 0 {
        assert(a + b =~= b);
        assert(lines(a) =~= Seq::<Seq<char>>::empty());
        assert(lines(a) + lines(b) =~= lines(b));
    } else {
        lemma_lines_concat_from(a, b, 0, Seq::empty());
    }
}

pub proof fn lemma_lines_one_from(x: Seq<char>, i: int, cur: Seq<char>)
    requires
        0 <= i <= x.len(),
        forall|t: int| 0 <= t < x.len() ==> x[t] != '\n',
    ensures
        lines_from(x.push('\n'), i, cur) == seq![strip_cr(cur + x.skip(i))],
    decreases x.len() - i,
{
    let s = x.push('\n');
    if i < x.len() {
        assert(s[i] == x[i]);
        lemma_lines_one_from(x, i + 1, cur.push(x[i]));
        assert(cur.push(x[i]) + x.skip(i + 1) =~= cur + x.skip(i));
    } else {
        assert(s[i] == '\n');
        assert(cur + x.skip(i) =~= cur);
        assert(lines_from(s, i + 1, Seq::empty()) =~= Seq::<Seq<char>>::empty());
        assert(seq![strip_cr(cur)] + Seq::<Seq<char>>::empty() =~= seq![strip_cr(cur)]);
    }
}

/// A single line with its newline is that one line.
pub proof fn lemma_lines_one(x: Seq<char>)
    requires
        forall|t: int| 0 <= t < x.len() ==> x[t] != '\n',
    ensures
        lines(x.push('\n')) == seq![strip_cr(x)],
{
    lemma_lines_one_from(x, 0, Seq::empty());
    assert(Seq::<char>::empty() + x.skip(0) =~= x);
}

pub proof fn lemma_space_index_shift(x: Seq<char>, y: Seq<char>)
    requires
        forall|t: int| 0 <= t < x.len() ==> x[t] != ' ',
    ensures
        space_index(x + seq![' '] + y, 0) == Some(x.len() as int),
{
    let s = x + seq![' '] + y;
    lemma_space_index(s, 0);
    assert(s[x.len() as int] == ' ');
    match space_index(s, 0) {
        Some(j) => {
            if j < x.len() {
                assert(s[j] == x[j]);
            }
        },
        None => {},
    }
}

/// Splitting `x y` at spaces, where `x` has none, gives `x` and then the parts of `y`.
pub proof fn lemma_split_spaces_cons(x: Seq<char>, y: Seq<char>, n: nat)
    requires
        n >= 2,
        forall|t: int| 0 <= t < x.len() ==> x[t] != ' ',
    ensures
        split_spaces(x + seq![' '] + y, n) == seq![x] + split_spaces(y, (n - 1) as nat),
{
    let s = x + seq![' '] + y;
    lemma_space_index_shift(x, y);
    assert(s.take(x.len() as int) =~= x);
    assert(s.skip((x.len() + 1) as int) =~= y);
}

/// A text without spaces is a single part.
pub proof fn lemma_split_spaces_none(x: Seq<char>, n: nat)
    requires
        forall|t: int| 0 <= t < x.len() ==> x[t] != ' ',
    ensures
        split_spaces(x, n) == seq![x],
{
    lemma_space_index(x, 0);
}

pub proof fn lemma_words_shift(x: Seq<char>, y: Seq<char>, j: int, cur: Seq<char>)
    requires
        0 <= j <= y.len(),
    ensures
        words_from(x + y, x.len() + j, cur) == words_from(y, j, cur),
    decreases y.len() - j,
{
    if j < y.len() {
        assert((x + y)[x.len() + j] == y[j]);
        if is_word_break(y[j]) {
            lemma_words_shift(x, y, j + 1, Seq::empty());
        } else {
            lemma_words_shift(x, y, j + 1, cur.push(y[j]));
        }
    }
}

pub proof fn lemma_words_cons_from(x: Seq<char>, y: Seq<char>, i: int, cur: Seq<char>)
    requires
        0 <= i <= x.len(),
        cur.len() + x.len() - i > 0,
        forall|t: int| 0 <= t < x.len() ==> !is_word_break(x[t]),
    ensures
        words_from(x + seq![' '] + y, i, cur) == seq![cur + x.skip(i)] + words(y),
    decreases x.len() - i,
{
    let s = x + seq![' '] + y;
    if i < x.len() {
        assert(s[i] == x[i]);
        lemma_words_cons_from(x, y, i + 1, cur.push(x[i]));
        assert(cur.push(x[i]) + x.skip(i + 1) =~= cur + x.skip(i));
    } else {
        assert(s[i] == ' ');
        assert(cur + x.skip(i) =~= cur);
        assert(x + seq![' '] + y =~= (x + seq![' ']) + y);
        lemma_words_shift(x + seq![' '], y, 0, Seq::empty());
    }
}

/// The words of `x y`, where `x` is one word, are `x` and then the words of `y`.
pub proof fn lemma_words_cons(x: Seq<char>, y: Seq<char>)
    requires
        x.len() > 0,
        forall|t: int| 0 <= t < x.len() ==> !is_word_break(x[t]),
    ensures
        words(x + seq![' '] + y) == seq![x] + words(y),
{
    lemma_words_cons_from(x, y, 0, Seq::empty());
    assert(Seq::<char>::empty() + x.skip(0) =~= x);
}

pub proof fn lemma_words_one_from(x: Seq<char>, i: int, cur: Seq<char>)
    requires
        0 <= i <= x.len(),
        cur.len() + x.len() - i > 0,
        forall|t: int| 0 <= t < x.len() ==> !is_word_break(x[t]),
    ensures
        words_from(x, i, cur) == seq![cur + x.skip(i)],
    decreases x.len() - i,
{
    if i < x.len() {
        lemma_words_one_from(x, i + 1, cur.push(x[i]));
        assert(cur.push(x[i]) + x.skip(i + 1) =~= cur + x.skip(i));
    } else {
        assert(cur + x.skip(i) =~= cur);
    }
}

/// A single word is its only word.
pub proof fn lemma_words_one(x: Seq<char>)
    requires
        x.len() > 0,
        forall|t: int| 0 <= t < x.len() ==> !is_word_break(x[t]),
    ensures
        words(x) == seq![x],
{
    lemma_words_one_from(x, 0, Seq::empty());
    assert(Seq::<char>::empty() + x.skip(0) =~= x);
}


/// Whether the list holds a string equal to `s`.
pub fn list_contains(list: &Vec<String>, s: &String) -> (r: bool)
    ensures
        r == list.deep_view().contains(s@),
{
    let mut i: usize = 0;
    while i < list.len()
        invariant
            i <= list@.len(),
            forall|t: int| 0 <= t < i ==> #[trigger] list.deep_view()[t] != s@,
        decreases list@.len() - i,
    {
        if list[i] == *s {
            assert(list.deep_view()[i as int] == s@);
            return true;
        }
        i = i + 1;
    }
    false
}

} // verus!
