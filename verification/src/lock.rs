//! The lock file `belt.lock`: for each module compiled, its file, the hash of the
//! file's contents and the modules it imports, so that unchanged modules are skipped.
use std::collections::hash_map::DefaultHasher;
use std::hash::{Hash, Hasher};
use vstd::prelude::*;

use crate::graph::{key_index, lemma_key_index};
use crate::text::{
    is_word_break, lemma_lines_concat, lemma_lines_one, lemma_split_spaces_cons, lemma_split_spaces_none,
    lemma_words_cons, lemma_words_one, strip_cr,
    char_seqs, lines, push_char, push_chars, push_string, split_at_spaces, split_lines, split_spaces,
    split_words, str_chars, words,
};

verus! {

/// One module of the lock file.
#[derive(Debug)]
pub struct LockEntry {
    pub name: String,
    pub path: String,
    pub hash: String,
    pub deps: Vec<String>,
}

/// The mathematical content of a [`LockEntry`].
pub struct LockEntryView {
    pub name: Seq<char>,
    pub path: Seq<char>,
    pub hash: Seq<char>,
    pub deps: Seq<Seq<char>>,
}

impl View for LockEntry {
    type V = LockEntryView;

    open spec fn view(&self) -> LockEntryView {
        LockEntryView { name: self.name@, path: self.path@, hash: self.hash@, deps: self.deps.deep_view() }
    }
}

/// The modules of the lock file, at most one entry per module name.
#[derive(Debug)]
pub struct LockFile {
    pub entries: Vec<LockEntry>,
}

/// The views of a sequence of entries.
pub open spec fn entry_views(es: Seq<LockEntry>) -> Seq<LockEntryView> {
    es.map_values(|e: LockEntry| e@)
}

/// The index of the entry named `name`.
pub open spec fn entry_index(es: Seq<LockEntryView>, name: Seq<char>) -> Option<int> {
    key_index(es.map_values(|e: LockEntryView| (e.name, ())), name)
}

/// The entry named `name`.
pub open spec fn lookup(es: Seq<LockEntryView>, name: Seq<char>) -> Option<LockEntryView> {
    match entry_index(es, name) {
        Some(j) => Some(es[j]),
        None => None,
    }
}

/// The entries with `e` put in: in place of the entry with its name, else at the end.
pub open spec fn put_entry(es: Seq<LockEntryView>, e: LockEntryView) -> Seq<LockEntryView> {
    match entry_index(es, e.name) {
        Some(j) => es.update(j, e),
        None => es.push(e),
    }
}

/// The names of the entries are distinct.
pub open spec fn names_distinct(es: Seq<LockEntryView>) -> bool {
    forall|i: int, j: int| 0 <= i < j < es.len() ==> #[trigger] es[i].name != #[trigger] es[j].name
}

impl LockFile {
    /// The entries of the lock file.
    pub open spec fn view_entries(&self) -> Seq<LockEntryView> {
        entry_views(self.entries@)
    }
}

// ---------------------------------------------------------------------------------------------
// The text of the lock file: one line per module,
// `module <name> <path> <hash>` followed by the imported modules.

pub open spec fn module_word() -> Seq<char> {
    seq!['m', 'o', 'd', 'u', 'l', 'e']
}

/// The entry that a line describes, if it is a module line.
pub open spec fn line_entry(l: Seq<char>) -> Option<LockEntryView> {
    let parts = split_spaces(l, 5);
    if parts.len() < 4 || parts[0] != module_word() {
        None
    } else {
        Some(
            LockEntryView {
                name: parts[1],
                path: parts[2],
                hash: parts[3],
                deps: if parts.len() == 5 {
                    words(parts[4])
                } else {
                    Seq::empty()
                },
            },
        )
    }
}

/// The entries of the lines from index `i` on, put into `acc`; a later line for a module replaces an earlier one.
pub open spec fn entries_from(ls: Seq<Seq<char>>, i: int, acc: Seq<LockEntryView>) -> Seq<LockEntryView>
    decreases ls.len() - i,
{
    if i < 0 || i >= ls.len() {
        acc
    } else {
        match line_entry(ls[i]) {
            Some(e) => entries_from(ls, i + 1, put_entry(acc, e)),
            None => entries_from(ls, i + 1, acc),
        }
    }
}

/// The entries that a lock file text describes.
pub open spec fn parse_lock(text: Seq<char>) -> Seq<LockEntryView> {
    entries_from(lines(text), 0, Seq::empty())
}

/// The words joined by single spaces.
pub open spec fn join_words(ds: Seq<Seq<char>>) -> Seq<char>
    decreases ds.len(),
{
    if ds.len() == 0 {
        Seq::empty()
    } else if ds.len() == 1 {
        ds[0]
    } else {
        ds[0] + seq![' '] + join_words(ds.drop_first())
    }
}

/// The line that describes an entry, without its newline.
pub open spec fn entry_body(e: LockEntryView) -> Seq<char> {
    let deps = join_words(e.deps);
    module_word() + seq![' '] + e.name + seq![' '] + e.path + seq![' '] + e.hash + (if deps.len() > 0 {
        seq![' '] + deps
    } else {
        Seq::empty()
    })
}

/// The line that describes an entry, with its newline.
pub open spec fn entry_line(e: LockEntryView) -> Seq<char> {
    entry_body(e) + seq!['\n']
}

/// The text of a lock file with the given entries, in order.
pub open spec fn render_lock(es: Seq<LockEntryView>) -> Seq<char>
    decreases es.len(),
{
    if es.len() == 0 {
        Seq::empty()
    } else {
        render_lock(es.drop_last()) + entry_line(es.last())
    }
}

/// Whether a module must be compiled again: it is not in the lock file, or its
/// file's hash changed, or one of its imports was compiled again.
pub open spec fn dirty(
    es: Seq<LockEntryView>,
    name: Seq<char>,
    current_hash: Option<Seq<char>>,
    deps: Seq<Seq<char>>,
    dirty_set: Seq<Seq<char>>,
) -> bool {
    match lookup(es, name) {
        None => true,
        Some(e) => {
            ||| (current_hash matches Some(h) && h != e.hash)
            ||| exists|i: int| 0 <= i < deps.len() && dirty_set.contains(#[trigger] deps[i])
        },
    }
}

/// The hex digits that the hash of a file is written with.
pub open spec fn is_hex_text(s: Seq<char>) -> bool {
    &&& 1 <= s.len() <= 16
    &&& forall|i: int| 0 <= i < s.len() ==> ('0' <= #[trigger] s[i] <= '9' || 'a' <= s[i] <= 'f')
}

/// Feeds the bytes to the hasher with `Hash::hash` of the byte slice, which
/// writes the slice's length and then its bytes. What that does to the
/// hasher's state is not stated: the length is written as a `usize`, whose
/// width depends on the machine.
#[verifier::external_body]
fn hash_bytes(content: &[u8], hasher: &mut DefaultHasher) {
    content.hash(hasher)
}

/// The hex digit of a value below 16.
pub open spec fn hex_digit(d: u64) -> char {
    if d < 10 {
        ('0' as u64 + d) as char
    } else {
        ('a' as u64 + (d - 10)) as char
    }
}

/// A value written in lower-case hex, without leading zeros (`0` for zero), as `{:x}` writes it.
pub open spec fn hex_text(v: u64) -> Seq<char>
    decreases v,
{
    if v < 16 {
        seq![hex_digit(v)]
    } else {
        hex_text(v / 16).push(hex_digit(v % 16))
    }
}

spec fn pow16(k: nat) -> int
    decreases k,
{
    if k == 0 {
        1
    } else {
        16 * pow16((k - 1) as nat)
    }
}

/// A value below `16^k` has at most `k` hex digits, each a hex digit.
proof fn lemma_hex_text_bound(v: u64, k: nat)
    requires
        1 <= k,
        (v as int) < pow16(k),
    ensures
        1 <= hex_text(v).len() <= k,
        forall|i: int| 0 <= i < hex_text(v).len() ==> ('0' <= #[trigger] hex_text(v)[i] <= '9' || 'a' <= hex_text(v)[i] <= 'f'),
    decreases k,
{
    let d = (v % 16) as u64;
    assert('0' <= hex_digit(d) <= '9' || 'a' <= hex_digit(d) <= 'f');
    if v >= 16 {
        assert(k >= 2) by {
            if k == 1 {
                assert(pow16(1) == 16 * pow16(0));
            }
        }
        assert(pow16(k) == 16 * pow16((k - 1) as nat));
        assert(((v / 16) as int) < pow16((k - 1) as nat)) by (nonlinear_arith)
            requires
                (v as int) < pow16(k),
                pow16(k) == 16 * pow16((k - 1) as nat);
        lemma_hex_text_bound(v / 16, (k - 1) as nat);
        let t = hex_text(v);
        assert(t == hex_text(v / 16).push(hex_digit(d)));
        assert forall|i: int| 0 <= i < t.len() implies ('0' <= #[trigger] t[i] <= '9' || 'a' <= t[i] <= 'f') by {
            if i < t.len() - 1 {
                assert(t[i] == hex_text(v / 16)[i]);
            }
        }
    } else {
        assert(d == v);
    }
}

/// Any value is written with one to sixteen hex digits.
proof fn lemma_hex_text(v: u64)
    ensures
        is_hex_text(hex_text(v)),
{
    assert(pow16(16) == 0x1_0000_0000_0000_0000) by {
        reveal_with_fuel(pow16, 17);
    }
    lemma_hex_text_bound(v, 16);
}

/// The hex digit of a value below 16, in executable code.
fn hex_digit_of(d: u64) -> (c: char)
    requires
        d < 16,
    ensures
        c == hex_digit(d),
{
    if d < 10 {
        ((48 + d) as u8) as char
    } else {
        ((97 + (d - 10)) as u8) as char
    }
}

/// Writes a value in lower-case hex, as `{:x}` does.
fn hex_of(v: u64) -> (s: String)
    ensures
        s@ == hex_text(v),
{
    let mut digits: Vec<char> = Vec::new();
    let mut x: u64 = v;
    assert(digits@.reverse() =~= Seq::<char>::empty());
    assert(hex_text(v) =~= hex_text(x) + digits@.reverse());
    while x >= 16
        invariant
            hex_text(v) == hex_text(x) + digits@.reverse(),
        decreases x,
    {
        let c = hex_digit_of(x % 16);
        let ghost before = digits@;
        digits.push(c);
        assert(digits@.reverse() =~= seq![c] + before.reverse());
        assert(hex_text(x) == hex_text(x / 16).push(c));
        assert(hex_text(x / 16).push(c) + before.reverse() =~= hex_text(x / 16) + (seq![c] + before.reverse()));
        x = x / 16;
    }
    let c = hex_digit_of(x);
    let ghost before = digits@;
    digits.push(c);
    assert(digits@.reverse() =~= seq![c] + before.reverse());
    assert(hex_text(v) =~= digits@.reverse());
    let mut s = String::new();
    let mut i: usize = digits.len();
    while i > 0
        invariant
            i <= digits@.len(),
            s@ == digits@.reverse().take(digits@.len() - i),
        decreases i,
    {
        i = i - 1;
        push_char(&mut s, digits[i]);
        assert(digits@.reverse()[digits@.len() - i - 1] == digits@[i as int]);
        assert(s@ =~= digits@.reverse().take(digits@.len() - i));
    }
    assert(digits@.reverse().take(digits@.len() as int) =~= digits@.reverse());
    s
}

/// The line that describes an entry, with its newline.
fn entry_text(e: &LockEntry) -> (text: String)
    ensures
        text@ == entry_line(e@),
{
    let mut text = String::new();
    push_chars(&mut text, &['m', 'o', 'd', 'u', 'l', 'e', ' ']);
    push_string(&mut text, &e.name);
    push_char(&mut text, ' ');
    push_string(&mut text, &e.path);
    push_char(&mut text, ' ');
    push_string(&mut text, &e.hash);
    let deps = join_deps(&e.deps);
    let dchars = str_chars(deps.as_str());
    if dchars.len() > 0 {
        push_char(&mut text, ' ');
        push_chars(&mut text, dchars.as_slice());
    }
    push_char(&mut text, '\n');
    assert(text@ =~= entry_line(e@));
    text
}

impl LockFile {
    /// An empty lock file.
    pub fn new() -> (l: Self)
        ensures
            l.view_entries() == Seq::<LockEntryView>::empty(),
    {
        let l = LockFile { entries: Vec::new() };
        assert(l.view_entries() =~= Seq::<LockEntryView>::empty());
        l
    }

    /// The hash of a file's contents, as written in the lock file: the bytes
    /// are hashed with std's `DefaultHasher` (`Hash` of the slice, then
    /// `finish`) and the `u64` is written in lower-case hex. Which `u64` comes
    /// out is not stated: it depends on the machine and the std release.
    pub fn hash_file(content: &[u8]) -> (h: String)
        ensures
            exists|x: u64| h@ == hex_text(x),
            is_hex_text(h@),
    {
        let mut hasher = DefaultHasher::new();
        hash_bytes(content, &mut hasher);
        let x = hasher.finish();
        proof {
            lemma_hex_text(x);
        }
        hex_of(x)
    }

    /// The index of the entry named `name`.
    fn find_entry(&self, name: &String) -> (r: Option<usize>)
        ensures
            r matches Some(j) ==> entry_index(self.view_entries(), name@) == Some(j as int) && j
                < self.entries@.len(),
            r is None ==> entry_index(self.view_entries(), name@) is None,
    {
        let ghost ks = self.view_entries().map_values(|e: LockEntryView| (e.name, ()));
        proof {
            lemma_key_index(ks, name@);
        }
        let mut j: usize = 0;
        while j < self.entries.len()
            invariant
                j <= self.entries@.len(),
                ks == self.view_entries().map_values(|e: LockEntryView| (e.name, ())),
                ks.len() == self.entries@.len(),
                forall|i: int| 0 <= i < j ==> #[trigger] ks[i].0 != name@,
                match key_index(ks, name@) {
                    Some(x) => 0 <= x < ks.len() && ks[x].0 == name@ && forall|i: int|
                        0 <= i < x ==> #[trigger] ks[i].0 != name@,
                    None => forall|i: int| 0 <= i < ks.len() ==> #[trigger] ks[i].0 != name@,
                },
            decreases self.entries@.len() - j,
        {
            assert(ks[j as int].0 == self.entries@[j as int].name@);
            if self.entries[j].name == *name {
                return Some(j);
            }
            j = j + 1;
        }
        None
    }

    /// The entry named `name`.
    pub fn get(&self, name: &String) -> (r: Option<&LockEntry>)
        ensures
            match lookup(self.view_entries(), name@) {
                Some(e) => r matches Some(x) && x@ == e,
                None => r is None,
            },
    {
        match self.find_entry(name) {
            Some(j) => Some(&self.entries[j]),
            None => None,
        }
    }

    /// Puts an entry in: in place of the entry with its name, else at the end.
    pub fn insert(&mut self, entry: LockEntry)
        ensures
            final(self).view_entries() == put_entry(old(self).view_entries(), entry@),
    {
        let ghost before = self.view_entries();
        let ghost e = entry@;
        match self.find_entry(&entry.name) {
            Some(j) => {
                self.entries.set(j, entry);
            },
            None => {
                self.entries.push(entry);
            },
        }
        proof {
            lemma_key_index(before.map_values(|x: LockEntryView| (x.name, ())), e.name);
        }
        assert(self.view_entries() =~= put_entry(before, e));
    }

    /// Reads the entries of a lock file text: lines other than module lines are
    /// skipped, and a later line for a module replaces an earlier one.
    pub fn load(content: &str) -> (l: Self)
        ensures
            l.view_entries() == parse_lock(content@),
    {
        let mut lock = LockFile::new();
        let chars = str_chars(content);
        let ls = split_lines(chars.as_slice());
        let n = ls.len();
        let mut i: usize = 0;
        while i < n
            invariant
                n == ls@.len(),
                i <= n,
                char_seqs(ls@) == lines(content@),
                parse_lock(content@) == entries_from(char_seqs(ls@), i as int, lock.view_entries()),
            decreases n - i,
        {
            let ghost l = char_seqs(ls@)[i as int];
            assert(l == ls@[i as int]@);
            let parts = split_at_spaces(ls[i].as_slice(), 5);
            let ghost ps = char_seqs(parts@);
            if parts.len() >= 4 && crate::text::chars_eq(parts[0].as_slice(), &['m', 'o', 'd', 'u', 'l', 'e']) {
                assert(ps[0] == parts@[0]@);
                let name = crate::text::string_from_chars(parts[1].as_slice());
                let path = crate::text::string_from_chars(parts[2].as_slice());
                let hash = crate::text::string_from_chars(parts[3].as_slice());
                let mut deps: Vec<String> = Vec::new();
                if parts.len() == 5 {
                    let ws = split_words(parts[4].as_slice());
                    let mut k: usize = 0;
                    while k < ws.len()
                        invariant
                            k <= ws@.len(),
                            deps@.len() == k,
                            forall|t: int| 0 <= t < k ==> #[trigger] deps.deep_view()[t] == ws@[t]@,
                        decreases ws@.len() - k,
                    {
                        let ghost before = deps.deep_view();
                        let w = crate::text::string_from_chars(ws[k].as_slice());
                        deps.push(w);
                        assert(deps.deep_view() =~= before.push(ws@[k as int]@));
                        k = k + 1;
                    }
                    assert(deps.deep_view() =~= char_seqs(ws@));
                } else {
                    assert(deps.deep_view() =~= Seq::<Seq<char>>::empty());
                }
                let entry = LockEntry { name, path, hash, deps };
                assert(line_entry(l) == Some(entry@));
                lock.insert(entry);
            } else {
                assert(line_entry(l) is None);
            }
            i = i + 1;
        }
        lock
    }

    /// The text of the lock file: one line per entry, in order.
    pub fn render(&self) -> (text: String)
        ensures
            text@ == render_lock(self.view_entries()),
    {
        let mut text = String::new();
        let mut i: usize = 0;
        while i < self.entries.len()
            invariant
                i <= self.entries@.len(),
                text@ == render_lock(self.view_entries().take(i as int)),
            decreases self.entries@.len() - i,
        {
            let e = &self.entries[i];
            let ghost before = text@;
            let line = entry_text(e);
            push_string(&mut text, &line);
            proof {
                let es = self.view_entries();
                assert(es.take(i + 1).drop_last() =~= es.take(i as int));
                assert(es.take(i + 1).last() == e@);
            }
            i = i + 1;
        }
        assert(self.view_entries().take(self.entries@.len() as int) =~= self.view_entries());
        text
    }

    /// Whether a module must be compiled again: it is not in the lock file, or
    /// the hash of its file (where the file could be read) differs from the one
    /// recorded, or one of its imports is in `dirty_set`.
    pub fn is_dirty(
        &self,
        module_name: &String,
        current_hash: &Option<String>,
        deps: &Vec<String>,
        dirty_set: &Vec<String>,
    ) -> (r: bool)
        ensures
            r == dirty(self.view_entries(), module_name@, current_hash.deep_view(), deps.deep_view(), dirty_set.deep_view()),
    {
        let entry = match self.get(module_name) {
            Some(e) => e,
            None => return true,
        };
        match current_hash {
            Some(h) => {
                if *h != entry.hash {
                    return true;
                }
            },
            None => {},
        }
        let mut i: usize = 0;
        while i < deps.len()
            invariant
                i <= deps@.len(),
                forall|t: int| 0 <= t < i ==> !dirty_set.deep_view().contains(#[trigger] deps.deep_view()[t]),
            decreases deps@.len() - i,
        {
            if crate::text::list_contains(dirty_set, &deps[i]) {
                assert(dirty_set.deep_view().contains(deps.deep_view()[i as int]));
                return true;
            }
            i = i + 1;
        }
        false
    }
}



/// The strings joined by single spaces.
fn join_deps(ds: &Vec<String>) -> (r: String)
    ensures
        r@ == join_words(ds.deep_view()),
{
    let mut r = String::new();
    let n = ds.len();
    if n == 0 {
        return r;
    }
    let mut i: usize = n - 1;
    push_string(&mut r, &ds[i]);
    proof {
        assert(ds.deep_view().skip(i as int) =~= seq![ds@[i as int]@]);
    }
    while i > 0
        invariant
            i < n,
            n == ds@.len(),
            r@ == join_words(ds.deep_view().skip(i as int)),
        decreases i,
    {
        i = i - 1;
        let mut next = String::new();
        push_string(&mut next, &ds[i]);
        push_char(&mut next, ' ');
        push_string(&mut next, &r);
        proof {
            let d = ds.deep_view();
            assert(d.skip(i as int)[0] == ds@[i as int]@);
            assert(d.skip(i as int).drop_first() =~= d.skip(i + 1));
        }
        r = next;
    }
    assert(ds.deep_view().skip(0) =~= ds.deep_view());
    r
}


// ---------------------------------------------------------------------------------------------
// Reading back what was written.

/// A text that holds no line break.
pub open spec fn no_line_break(s: Seq<char>) -> bool {
    forall|t: int| 0 <= t < s.len() ==> #[trigger] s[t] != '\n' && s[t] != '\r'
}

/// A field that can stand in a lock line: no space, no line break.
pub open spec fn plain_field(s: Seq<char>) -> bool {
    no_line_break(s) && forall|t: int| 0 <= t < s.len() ==> #[trigger] s[t] != ' '
}

/// An import that can stand in a lock line: a non-empty word without line breaks.
pub open spec fn plain_dep(d: Seq<char>) -> bool {
    &&& d.len() > 0
    &&& no_line_break(d)
    &&& forall|t: int| 0 <= t < d.len() ==> !is_word_break(#[trigger] d[t])
}

/// An entry whose fields can be written in a lock line and read back.
pub open spec fn plain_entry(e: LockEntryView) -> bool {
    &&& plain_field(e.name)
    &&& plain_field(e.path)
    &&& plain_field(e.hash)
    &&& forall|i: int| 0 <= i < e.deps.len() ==> plain_dep(#[trigger] e.deps[i])
}

pub proof fn lemma_join_words(ds: Seq<Seq<char>>)
    requires
        forall|i: int| 0 <= i < ds.len() ==> plain_dep(#[trigger] ds[i]),
    ensures
        no_line_break(join_words(ds)),
        join_words(ds).len() > 0 <==> ds.len() > 0,
        ds.len() > 0 ==> words(join_words(ds)) == ds,
    decreases ds.len(),
{
    if ds.len() == 1 {
        assert(plain_dep(ds[0]));
        lemma_words_one(ds[0]);
        assert(seq![ds[0]] =~= ds);
    } else if ds.len() > 1 {
        let rest = ds.drop_first();
        assert forall|i: int| 0 <= i < rest.len() implies plain_dep(#[trigger] rest[i]) by {
            assert(rest[i] == ds[i + 1]);
        }
        lemma_join_words(rest);
        assert(plain_dep(ds[0]));
        let j = join_words(ds);
        assert(j == ds[0] + seq![' '] + join_words(rest));
        assert forall|t: int| 0 <= t < j.len() implies #[trigger] j[t] != '\n' && j[t] != '\r' by {
            if t < ds[0].len() {
                assert(j[t] == ds[0][t]);
            } else if t > ds[0].len() {
                assert(j[t] == join_words(rest)[t - ds[0].len() - 1]);
            }
        }
        lemma_words_cons(ds[0], join_words(rest));
        assert(seq![ds[0]] + rest =~= ds);
    }
}

pub proof fn lemma_entry_body(e: LockEntryView)
    requires
        plain_entry(e),
    ensures
        no_line_break(entry_body(e)),
        line_entry(entry_body(e)) == Some(e),
{
    let deps = join_words(e.deps);
    lemma_join_words(e.deps);
    let tail: Seq<char> = if deps.len() > 0 {
        seq![' '] + deps
    } else {
        Seq::empty()
    };
    let r3 = e.hash + tail;
    let r2 = e.path + seq![' '] + r3;
    let r1 = e.name + seq![' '] + r2;
    let body = entry_body(e);
    assert(body =~= module_word() + seq![' '] + r1);
    assert forall|t: int| 0 <= t < body.len() implies #[trigger] body[t] != '\n' && body[t] != '\r' by {
        let m = module_word().len() + 1;
        if t >= m {
            let u = t - m;
            assert(body[t] == r1[u]);
            if u >= e.name.len() + 1 {
                let v = u - e.name.len() - 1;
                assert(r1[u] == r2[v]);
                if v >= e.path.len() + 1 {
                    let w = v - e.path.len() - 1;
                    assert(r2[v] == r3[w]);
                    if w >= e.hash.len() {
                        assert(r3[w] == tail[w - e.hash.len()]);
                        if deps.len() > 0 && w - e.hash.len() >= 1 {
                            assert(tail[w - e.hash.len()] == deps[w - e.hash.len() - 1]);
                        }
                    } else {
                        assert(r3[w] == e.hash[w]);
                    }
                } else if v < e.path.len() {
                    assert(r2[v] == e.path[v]);
                }
            } else if u < e.name.len() {
                assert(r1[u] == e.name[u]);
            }
        }
    }
    assert forall|t: int| 0 <= t < module_word().len() implies module_word()[t] != ' ' by {}
    lemma_split_spaces_cons(module_word(), r1, 5);
    lemma_split_spaces_cons(e.name, r2, 4);
    lemma_split_spaces_cons(e.path, r3, 3);
    if deps.len() > 0 {
        assert(r3 =~= e.hash + seq![' '] + deps);
        lemma_split_spaces_cons(e.hash, deps, 2);
        assert(split_spaces(deps, 1) == seq![deps]);
        let parts = split_spaces(body, 5);
        assert(parts =~= seq![module_word(), e.name, e.path, e.hash, deps]);
    } else {
        assert(r3 =~= e.hash);
        lemma_split_spaces_none(e.hash, 2);
        let parts = split_spaces(body, 5);
        assert(parts =~= seq![module_word(), e.name, e.path, e.hash]);
        assert(e.deps =~= Seq::<Seq<char>>::empty());
    }
}

/// The bodies of the lines of the entries.
pub open spec fn entry_bodies(es: Seq<LockEntryView>) -> Seq<Seq<char>> {
    es.map_values(|e: LockEntryView| entry_body(e))
}

pub proof fn lemma_render_lines(es: Seq<LockEntryView>)
    requires
        forall|i: int| 0 <= i < es.len() ==> plain_entry(#[trigger] es[i]),
    ensures
        lines(render_lock(es)) == entry_bodies(es),
        render_lock(es).len() == 0 || render_lock(es).last() == '\n',
    decreases es.len(),
{
    if es.len() > 0 {
        let init = es.drop_last();
        assert forall|i: int| 0 <= i < init.len() implies plain_entry(#[trigger] init[i]) by {
            assert(init[i] == es[i]);
        }
        lemma_render_lines(init);
        let e = es.last();
        assert(plain_entry(e));
        lemma_entry_body(e);
        lemma_lines_concat(render_lock(init), entry_line(e));
        assert(entry_line(e) == entry_body(e).push('\n'));
        assert forall|t: int| 0 <= t < entry_body(e).len() implies entry_body(e)[t] != '\n' by {
            assert(entry_body(e)[t] != '\n' && entry_body(e)[t] != '\r');
        }
        lemma_lines_one(entry_body(e));
        let b = entry_body(e);
        if b.len() > 0 {
            assert(b[b.len() - 1] != '\n' && b[b.len() - 1] != '\r');
        }
        assert(strip_cr(b) == b);
        assert(entry_bodies(es) =~= entry_bodies(init) + seq![b]);
    } else {
        assert(lines(render_lock(es)) =~= Seq::<Seq<char>>::empty());
        assert(entry_bodies(es) =~= Seq::<Seq<char>>::empty());
    }
}

pub proof fn lemma_entries_from_bodies(es: Seq<LockEntryView>, i: int)
    requires
        0 <= i <= es.len(),
        names_distinct(es),
        forall|k: int| 0 <= k < es.len() ==> plain_entry(#[trigger] es[k]),
    ensures
        entries_from(entry_bodies(es), i, es.take(i)) == es,
    decreases es.len() - i,
{
    let ls = entry_bodies(es);
    if i < es.len() {
        lemma_entry_body(es[i]);
        assert(ls[i] == entry_body(es[i]));
        let acc = es.take(i);
        let keys = acc.map_values(|e: LockEntryView| (e.name, ()));
        lemma_key_index(keys, es[i].name);
        assert(entry_index(acc, es[i].name) is None) by {
            if let Some(j) = key_index(keys, es[i].name) {
                assert(keys[j].0 == acc[j].name);
                assert(acc[j] == es[j]);
            }
        }
        assert(put_entry(acc, es[i]) =~= es.take(i + 1));
        lemma_entries_from_bodies(es, i + 1);
    } else {
        assert(es.take(i) =~= es);
    }
}

/// What `render` writes, `load` reads back, for entries with distinct names whose
/// name, path and hash hold no space or line break and whose imports are non-empty
/// words without line breaks.
pub proof fn lemma_lock_roundtrip(es: Seq<LockEntryView>)
    requires
        names_distinct(es),
        forall|i: int| 0 <= i < es.len() ==> plain_entry(#[trigger] es[i]),
    ensures
        parse_lock(render_lock(es)) == es,
{
    lemma_render_lines(es);
    lemma_entries_from_bodies(es, 0);
    assert(es.take(0) =~= Seq::<LockEntryView>::empty());
}


/// A module recorded with its current hash is clean unless one of its imports
/// was compiled again; and the record reads back as it was put in.
pub proof fn lemma_recorded_module_is_clean(
    es: Seq<LockEntryView>,
    e: LockEntryView,
    deps: Seq<Seq<char>>,
    dirty_set: Seq<Seq<char>>,
)
    ensures
        lookup(put_entry(es, e), e.name) == Some(e),
        dirty(put_entry(es, e), e.name, Some(e.hash), deps, dirty_set) <==> exists|i: int|
            0 <= i < deps.len() && dirty_set.contains(#[trigger] deps[i]),
        !dirty(put_entry(es, e), e.name, None, deps, dirty_set) <==> forall|i: int|
            0 <= i < deps.len() ==> !dirty_set.contains(#[trigger] deps[i]),
{
    let keys = es.map_values(|x: LockEntryView| (x.name, ()));
    lemma_key_index(keys, e.name);
    let es2 = put_entry(es, e);
    let keys2 = es2.map_values(|x: LockEntryView| (x.name, ()));
    lemma_key_index(keys2, e.name);
    match key_index(keys, e.name) {
        Some(j) => {
            assert(es2[j] == e);
            assert(keys2[j].0 == e.name);
            match key_index(keys2, e.name) {
                Some(j2) => {
                    if j2 < j {
                        assert(keys2[j2].0 == keys[j2].0);
                    }
                    if j < j2 {
                        assert(keys2[j].0 == e.name);
                    }
                },
                None => {},
            }
        },
        None => {
            assert(es2[es.len() as int] == e);
            assert(keys2[es.len() as int].0 == e.name);
            match key_index(keys2, e.name) {
                Some(j2) => {
                    if j2 < es.len() {
                        assert(keys2[j2].0 == keys[j2].0);
                    }
                },
                None => {},
            }
        },
    }
}

/// Putting an entry in keeps the names of the entries distinct.
pub proof fn lemma_put_keeps_names_distinct(es: Seq<LockEntryView>, e: LockEntryView)
    requires
        names_distinct(es),
    ensures
        names_distinct(put_entry(es, e)),
{
    let keys = es.map_values(|x: LockEntryView| (x.name, ()));
    lemma_key_index(keys, e.name);
    let es2 = put_entry(es, e);
    match key_index(keys, e.name) {
        Some(j) => {
            assert forall|a: int, b: int| 0 <= a < b < es2.len() implies #[trigger] es2[a].name != #[trigger] es2[b].name by {
                if a == j {
                    assert(es[b].name != es[j].name);
                } else if b == j {
                    assert(es[a].name != es[j].name);
                } else {
                    assert(es2[a] == es[a] && es2[b] == es[b]);
                }
            }
        },
        None => {
            assert forall|a: int, b: int| 0 <= a < b < es2.len() implies #[trigger] es2[a].name != #[trigger] es2[b].name by {
                if b == es.len() {
                    assert(keys[a].0 == es[a].name);
                } else {
                    assert(es2[a] == es[a] && es2[b] == es[b]);
                }
            }
        },
    }
}

proof fn lemma_entries_from_distinct(ls: Seq<Seq<char>>, i: int, acc: Seq<LockEntryView>)
    requires
        names_distinct(acc),
    ensures
        names_distinct(entries_from(ls, i, acc)),
    decreases ls.len() - i,
{
    if 0 <= i < ls.len() {
        match line_entry(ls[i]) {
            Some(e) => {
                lemma_put_keeps_names_distinct(acc, e);
                lemma_entries_from_distinct(ls, i + 1, put_entry(acc, e));
            },
            None => lemma_entries_from_distinct(ls, i + 1, acc),
        }
    }
}

/// A lock file text describes each module at most once.
pub proof fn lemma_loaded_names_distinct(text: Seq<char>)
    ensures
        names_distinct(parse_lock(text)),
{
    lemma_entries_from_distinct(lines(text), 0, Seq::empty());
}

} // verus!
