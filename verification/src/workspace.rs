//! A bounded, regenerable index of an authorised folder of notes.
//!
//! The index holds no file handle and grants no access: notes are named by
//! their path relative to the root, with components joined by `/`, and the
//! caller resolves that path again before opening anything. Walking the disk
//! stays with the caller; the decisions taken during the walk, and what is
//! read out of each note, are here.
use vstd::prelude::*;
use crate::strings::{
    ascii_lowercase, byte_len, chars_of, contains, contains_seq, ends_with, find, first_occurrence,
    last_index_of, lemma_find_byte, lemma_split_at, replace_char, rfind_char, replace_chars, slice, str_equals, to_ascii_lowercase,
    to_lowercase, trim, trim_end_char, trim_end_matches_char, trim_end_matches_str,
    trim_end_seq, trim_start, trim_start_ws, trim_ws, unicode_lowercase,
};
use crate::text::{
    byte_offset, char_index, is_boundary, lemma_boundary_char_index, lemma_byte_offset_bounds,
    lemma_char_index, lemma_ends_are_boundaries, lemma_utf8_len_ascii, lemma_utf8_len_concat,
    slice_text, utf8_len, valid_range,
};

verus! {

pub const DEFAULT_MAX_WORKSPACE_FILES: usize = 10_000;

pub const DEFAULT_MAX_WORKSPACE_NOTE_BYTES: u64 = 524_288;

pub const DEFAULT_MAX_WORKSPACE_SCAN_BYTES: u64 = 67_108_864;

/// Global budget of text kept for search. The index is never persisted and
/// must be droppable without leaving a full copy of the vault behind.
pub const DEFAULT_MAX_INDEXED_CONTENT_BYTES: usize = 8_388_608;

pub const MAX_INDEXED_BYTES_PER_NOTE: usize = 8192;

pub const MAX_CHANGE_MARKS: usize = 1024;

/// The lines of a text as `str::lines` gives them: split at `\n`, a `\r`
/// just before the `\n` dropped, no empty line after a final `\n`.
pub open spec fn lines_of(s: Seq<char>) -> Seq<Seq<char>>
    decreases s.len(),
{
    if s.len() == 0 {
        Seq::empty()
    } else {
        match first_occurrence(s, "\n"@) {
            Some(k) => {
                let line = s.take(k);
                let line = if line.len() > 0 && line.last() == '\r' {
                    line.drop_last()
                } else {
                    line
                };
                if 0 <= k < s.len() {
                    seq![line] + lines_of(s.skip(k + 1))
                } else {
                    seq![line]
                }
            },
            None => seq![s],
        }
    }
}

/// One-byte separators split a text into two valid slices.
proof fn lemma_split_once(s: Seq<char>, p: Seq<char>)
    requires
        utf8_len(p) == 1,
        p.len() == 1,
        first_occurrence(s, p) is Some,
    ensures
        ({
            let k = first_occurrence(s, p)->0;
            let b = byte_offset(s, k) as int;
            &&& 0 <= k < s.len()
            &&& s[k] == p[0]
            &&& b + 1 <= utf8_len(s)
            &&& valid_range(s, 0, b)
            &&& valid_range(s, b + 1, utf8_len(s) as int)
            &&& slice_text(s, 0, b) == s.take(k)
            &&& slice_text(s, b + 1, utf8_len(s) as int) == s.skip(k + 1)
        }),
{
    lemma_find_byte(s, p);
    lemma_ends_are_boundaries(s);
    let k = first_occurrence(s, p)->0;
    lemma_byte_offset_bounds(s, k + 1);
    assert(s.subrange(k, k + 1) == p);
    assert(s[k] == s.subrange(k, k + 1)[0]);
}

/// One line with its line feed is that line.
pub proof fn lemma_lines_single(l: Seq<char>)
    requires
        forall|j: int| 0 <= j < l.len() ==> l[j] != '\n',
        l.len() == 0 || l.last() != '\r',
    ensures
        lines_of(l + "\n"@) == seq![l],
{
    reveal_strlit("\n");
    let s = l + "\n"@;
    assert("\n"@ =~= seq!['\n']);
    crate::strings::lemma_first_char_at(s, '\n', l.len() as int);
    assert(s.take(l.len() as int) =~= l);
    assert(s.skip(l.len() as int + 1) =~= Seq::<char>::empty());
    assert(lines_of(Seq::<char>::empty()) =~= Seq::<Seq<char>>::empty());
}

/// Text that ends a line splits into lines independently of what follows.
pub proof fn lemma_lines_concat(x: Seq<char>, y: Seq<char>)
    requires
        x.len() == 0 || x.last() == '\n',
    ensures
        lines_of(x + y) == lines_of(x) + lines_of(y),
    decreases x.len(),
{
    reveal_strlit("\n");
    assert("\n"@ =~= seq!['\n']);
    if x.len() == 0 {
        assert(x + y =~= y);
        assert(lines_of(x) + lines_of(y) =~= lines_of(y));
    } else {
        crate::strings::lemma_first_occurrence_from(x, "\n"@, 0);
        assert(crate::strings::occurs_at(x, "\n"@, x.len() - 1)) by {
            assert(x.subrange(x.len() - 1, x.len() as int) =~= seq![x.last()]);
        }
        let k = first_occurrence(x, "\n"@)->0;
        assert(x[k] == '\n') by {
            assert(x.subrange(k, k + 1)[0] == x[k]);
        }
        assert forall|j: int| 0 <= j < k implies x[j] != '\n' by {
            if x[j] == '\n' {
                assert(crate::strings::occurs_at(x, "\n"@, j)) by {
                    assert(x.subrange(j, j + 1) =~= seq!['\n']);
                }
            }
        }
        crate::strings::lemma_first_char_at(x + y, '\n', k);
        crate::strings::lemma_first_char_at(x, '\n', k);
        let rest = x.skip(k + 1);
        assert((x + y).take(k) =~= x.take(k));
        assert((x + y).skip(k + 1) =~= rest + y);
        lemma_lines_concat(rest, y);
        if rest.len() > 0 {
            assert(rest.last() == x.last());
        }
        assert(lines_of(x + y) =~= lines_of(x) + lines_of(y));
    }
}

/// The texts of a list of strings.
pub open spec fn texts(v: Seq<String>) -> Seq<Seq<char>> {
    v.map_values(|l: String| l@)
}

/// The lines of a text.
pub fn lines(source: &str) -> (v: Vec<String>)
    ensures
        texts(v@) == lines_of(source@),
{
    proof {
        reveal_strlit("\n");
        reveal_strlit("\r");
        reveal_strlit("");
        lemma_utf8_len_ascii("\n"@);
        assert(texts(Seq::<String>::empty()) =~= Seq::<Seq<char>>::empty());
    }
    let mut out: Vec<String> = Vec::new();
    let mut rest = source;
    while !rest.is_empty()
        invariant
            texts(out@) + lines_of(rest@) == lines_of(source@),
        decreases rest@.len(),
    {
        let ghost before = out@;
        let ghost old_rest = rest@;
        proof {
            reveal_strlit("\n");
            reveal_strlit("\r");
            reveal_strlit("");
            lemma_utf8_len_ascii("\n"@);
        }
        match find(rest, "\n") {
            Some(at) => {
                proof {
                    lemma_split_once(rest@, "\n"@);
                }
                let len = byte_len(rest);
                let mut line = slice(rest, 0, at);
                let ghost taken = line@;
                if ends_with(line, "\r") {
                    let n = byte_len(line);
                    proof {
                        let l = line@;
                        assert("\r"@ =~= seq!['\r']);
                        assert(l.skip(l.len() - 1)[0] == l.last());
                        assert(l =~= l.drop_last() + seq!['\r']);
                        lemma_utf8_len_concat(l.drop_last(), seq!['\r']);
                        lemma_utf8_len_ascii(seq!['\r']);
                        lemma_char_index(l, l.len() - 1);
                        lemma_ends_are_boundaries(l);
                        assert(l.take(l.len() - 1) =~= l.drop_last());
                    }
                    line = slice(line, 0, n - 1);
                } else {
                    proof {
                        let l = line@;
                        if l.len() > 0 && l.last() == '\r' {
                            assert(l.skip(l.len() - 1) =~= "\r"@);
                        }
                    }
                }
                rest = slice(rest, at + 1, len);
                out.push(String::from_str(line));
                proof {
                    assert(texts(out@) =~= texts(before).push(line@));
                    assert(lines_of(old_rest) == seq![line@] + lines_of(rest@));
                    assert(texts(out@) + lines_of(rest@) =~= texts(before) + lines_of(old_rest));
                }
            },
            None => {
                out.push(String::from_str(rest));
                rest = "";
                proof {
                    assert(texts(out@) =~= texts(before).push(old_rest));
                    assert(rest@ =~= Seq::<char>::empty());
                    assert(lines_of(rest@) =~= Seq::<Seq<char>>::empty());
                    assert(texts(out@) + lines_of(rest@) =~= texts(before) + lines_of(old_rest));
                }
            },
        }
    }
    proof {
        assert(rest@.len() == 0);
        assert(texts(out@) + lines_of(rest@) =~= texts(out@));
    }
    out
}

#[derive(Clone, Debug, PartialEq, Eq)]
pub struct Heading {
    pub text: String,
    pub level: u8,
}

#[derive(Clone, Debug, PartialEq, Eq)]
pub struct WikiLink {
    /// Destination note, without alias nor anchor.
    pub note: String,
    pub alias: Option<String>,
    pub heading: Option<String>,
}

pub open spec fn opt_text(o: Option<String>) -> Option<Seq<char>> {
    match o {
        Some(s) => Some(s@),
        None => None,
    }
}

impl Heading {
    pub open spec fn view(self) -> (Seq<char>, u8) {
        (self.text@, self.level)
    }
}

impl WikiLink {
    pub open spec fn view(self) -> (Seq<char>, Option<Seq<char>>, Option<Seq<char>>) {
        (self.note@, opt_text(self.alias), opt_text(self.heading))
    }
}

/// Number of `#` that open a text.
pub open spec fn leading_hashes(t: Seq<char>) -> nat
    decreases t.len(),
{
    if t.len() > 0 && t[0] == '#' {
        1 + leading_hashes(t.drop_first())
    } else {
        0
    }
}

/// The ATX heading a line declares: one to six `#`, then a non-blank text,
/// whose closing `#`s and surrounding blanks are dropped.
pub open spec fn heading_of_line(line: Seq<char>) -> Option<(Seq<char>, u8)> {
    let t = trim_start_ws(line);
    let level = leading_hashes(t);
    if 1 <= level <= 6 {
        let rest = trim_start_ws(t.skip(level as int));
        if rest.len() > 0 {
            Some((trim_ws(trim_end_char(rest, '#')), level as u8))
        } else {
            None
        }
    } else {
        None
    }
}

/// The headings of some lines, in order.
pub open spec fn headings_of(lines: Seq<Seq<char>>) -> Seq<(Seq<char>, u8)>
    decreases lines.len(),
{
    if lines.len() == 0 {
        Seq::empty()
    } else {
        headings_of(lines.drop_last()) + match heading_of_line(lines.last()) {
            Some(h) => seq![h],
            None => Seq::empty(),
        }
    }
}

pub open spec fn heading_views(v: Seq<Heading>) -> Seq<(Seq<char>, u8)> {
    v.map_values(|h: Heading| h.view())
}

proof fn lemma_leading_hashes(t: Seq<char>, i: int)
    requires
        0 <= i <= t.len(),
        forall|j: int| 0 <= j < i ==> t[j] == '#',
    ensures
        leading_hashes(t) == i + leading_hashes(t.skip(i)),
    decreases i,
{
    if i > 0 {
        lemma_leading_hashes(t.drop_first(), i - 1);
        assert(t.drop_first().skip(i - 1) =~= t.skip(i));
    } else {
        assert(t.skip(0) =~= t);
    }
}

fn heading_from_line(line: &str) -> (r: Option<Heading>)
    ensures
        match r {
            Some(h) => heading_of_line(line@) == Some(h.view()),
            None => heading_of_line(line@) is None,
        },
{
    let t = trim_start(line);
    let chars = chars_of(t);
    let mut level: usize = 0;
    while level < chars.len() && chars[level] == '#'
        invariant
            chars@ == t@,
            level <= chars@.len(),
            forall|j: int| 0 <= j < level ==> t@[j] == '#',
        decreases chars@.len() - level,
    {
        level = level + 1;
    }
    proof {
        lemma_leading_hashes(t@, level as int);
        if level < t@.len() {
            assert(t@.skip(level as int)[0] != '#');
        }
        assert(leading_hashes(t@.skip(level as int)) == 0);
    }
    if level < 1 || level > 6 {
        return None;
    }
    let len = byte_len(t);
    proof {
        let p = t@.take(level as int);
        assert(vstd::utf8::is_ascii_chars(p)) by {
            assert forall|j: int| 0 <= j < p.len() implies '\0' <= #[trigger] p[j] <= '\u{7f}' by {
                assert(p[j] == '#');
            }
        }
        lemma_utf8_len_ascii(p);
        lemma_char_index(t@, level as int);
        lemma_byte_offset_bounds(t@, level as int);
        lemma_ends_are_boundaries(t@);
        assert(byte_offset(t@, level as int) == level);
    }
    let rest = trim_start(slice(t, level, len));
    proof {
        assert(slice_text(t@, level as int, utf8_len(t@) as int) =~= t@.skip(level as int));
    }
    if rest.is_empty() {
        return None;
    }
    let text = trim(trim_end_matches_char(rest, '#'));
    Some(Heading { text: String::from_str(text), level: level as u8 })
}

/// The headings of a note's source, line by line.
pub fn headings_in(source: &str) -> (v: Vec<Heading>)
    ensures
        heading_views(v@) == headings_of(lines_of(source@)),
{
    let all = lines(source);
    let mut found: Vec<Heading> = Vec::new();
    let mut i: usize = 0;
    while i < all.len()
        invariant
            i <= all@.len(),
            texts(all@) == lines_of(source@),
            heading_views(found@) == headings_of(texts(all@).take(i as int)),
        decreases all@.len() - i,
    {
        let ghost before = found@;
        proof {
            assert(texts(all@).take(i + 1).drop_last() =~= texts(all@).take(i as int));
            assert(texts(all@).take(i + 1).last() == all@[i as int]@);
        }
        match heading_from_line(all[i].as_str()) {
            Some(h) => {
                found.push(h);
                proof {
                    assert(heading_views(found@) =~= heading_views(before).push(h.view()));
                }
            },
            None => {},
        }
        i = i + 1;
    }
    proof {
        assert(texts(all@).take(all@.len() as int) =~= texts(all@));
    }
    found
}

/// Keeps a non-empty text, drops an empty one.
pub open spec fn non_empty(o: Option<Seq<char>>) -> Option<Seq<char>> {
    match o {
        Some(a) => if a.len() > 0 {
            Some(a)
        } else {
            None
        },
        None => None,
    }
}

/// The link written inside `[[...]]`: `note#heading|alias`, each part
/// trimmed; nothing when the note part is empty.
pub open spec fn link_of(raw: Seq<char>) -> Option<(Seq<char>, Option<Seq<char>>, Option<Seq<char>>)> {
    if raw.len() == 0 {
        None
    } else {
        let (target, alias) = match first_occurrence(raw, "|"@) {
            Some(k) => (trim_ws(raw.take(k)), Some(trim_ws(raw.skip(k + 1)))),
            None => (raw, None),
        };
        let (note, heading) = match first_occurrence(target, "#"@) {
            Some(k) => (trim_ws(target.take(k)), Some(trim_ws(target.skip(k + 1)))),
            None => (trim_ws(target), None),
        };
        if note.len() == 0 {
            None
        } else {
            Some((note, non_empty(alias), non_empty(heading)))
        }
    }
}

/// The wikilinks of a text, left to right; an unclosed `[[` ends the scan.
pub open spec fn wikilinks_of(rest: Seq<char>) -> Seq<(Seq<char>, Option<Seq<char>>, Option<Seq<char>>)>
    decreases rest.len(),
{
    match first_occurrence(rest, "[["@) {
        None => Seq::empty(),
        Some(k) => if k < 0 || k + 2 > rest.len() {
            Seq::empty()
        } else {
            let after = rest.skip(k + 2);
            match first_occurrence(after, "]]"@) {
                None => Seq::empty(),
                Some(e) => if e < 0 || e + 2 > after.len() {
                    Seq::empty()
                } else {
                    (match link_of(trim_ws(after.take(e))) {
                        Some(l) => seq![l],
                        None => Seq::empty(),
                    }) + wikilinks_of(after.skip(e + 2))
                },
            }
        },
    }
}

pub open spec fn link_views(v: Seq<WikiLink>) -> Seq<(Seq<char>, Option<Seq<char>>, Option<Seq<char>>)> {
    v.map_values(|l: WikiLink| l.view())
}

/// Splits at the first one-character separator, both sides trimmed.
fn split_trimmed<'a>(s: &'a str, sep: &str) -> (r: Option<(&'a str, &'a str)>)
    requires
        sep@.len() == 1,
        utf8_len(sep@) == 1,
    ensures
        match first_occurrence(s@, sep@) {
            Some(k) => r matches Some((a, b)) && a@ == trim_ws(s@.take(k)) && b@ == trim_ws(
                s@.skip(k + 1),
            ),
            None => r is None,
        },
{
    match find(s, sep) {
        Some(at) => {
            proof {
                lemma_split_at(s@, sep@);
            }
            let len = byte_len(s);
            Some((trim(slice(s, 0, at)), trim(slice(s, at + 1, len))))
        },
        None => None,
    }
}

fn link_from_raw(raw: &str) -> (r: Option<WikiLink>)
    ensures
        match r {
            Some(l) => link_of(raw@) == Some(l.view()),
            None => link_of(raw@) is None,
        },
{
    proof {
        reveal_strlit("|");
        reveal_strlit("#");
        lemma_utf8_len_ascii("|"@);
        lemma_utf8_len_ascii("#"@);
    }
    if raw.is_empty() {
        return None;
    }
    let (target, alias) = match split_trimmed(raw, "|") {
        Some((t, a)) => (t, Some(a)),
        None => (raw, None),
    };
    let (note, heading) = match split_trimmed(target, "#") {
        Some((n, h)) => (n, Some(h)),
        None => (trim(target), None),
    };
    if note.is_empty() {
        return None;
    }
    let alias = match alias {
        Some(a) => if a.is_empty() {
            None
        } else {
            Some(String::from_str(a))
        },
        None => None,
    };
    let heading = match heading {
        Some(h) => if h.is_empty() {
            None
        } else {
            Some(String::from_str(h))
        },
        None => None,
    };
    Some(WikiLink { note: String::from_str(note), alias, heading })
}

/// The `[[note#heading|alias]]` links of a note's source, in order.
pub fn wikilinks_in(source: &str) -> (v: Vec<WikiLink>)
    ensures
        link_views(v@) == wikilinks_of(source@),
{
    let mut links: Vec<WikiLink> = Vec::new();
    let mut rest = source;
    proof {
        assert(link_views(links@) =~= Seq::empty());
    }
    loop
        invariant
            link_views(links@) + wikilinks_of(rest@) == wikilinks_of(source@),
        decreases rest@.len(),
    {
        proof {
            reveal_strlit("[[");
            reveal_strlit("]]");
            lemma_utf8_len_ascii("[["@);
            lemma_utf8_len_ascii("]]"@);
        }
        let ghost old_rest = rest@;
        let ghost before = links@;
        let start = match find(rest, "[[") {
            Some(i) => i,
            None => {
                proof {
                    assert(wikilinks_of(rest@) =~= Seq::empty());
                    assert(link_views(links@) + wikilinks_of(rest@) =~= link_views(links@));
                }
                return links;
            },
        };
        proof {
            lemma_split_at(rest@, "[["@);
        }
        let len = byte_len(rest);
        let after_open = slice(rest, start + 2, len);
        let end = match find(after_open, "]]") {
            Some(i) => i,
            None => {
                proof {
                    assert(wikilinks_of(rest@) =~= Seq::empty());
                    assert(link_views(links@) + wikilinks_of(rest@) =~= link_views(links@));
                }
                return links;
            },
        };
        proof {
            lemma_split_at(after_open@, "]]"@);
        }
        let after_len = byte_len(after_open);
        let raw = trim(slice(after_open, 0, end));
        match link_from_raw(raw) {
            Some(l) => {
                links.push(l);
            },
            None => {},
        }
        rest = slice(after_open, end + 2, after_len);
        proof {
            assert(link_views(links@) =~= link_views(before) + match link_of(raw@) {
                Some(l) => seq![l],
                None => Seq::empty(),
            });
            assert(link_views(links@) + wikilinks_of(rest@) =~= link_views(before)
                + wikilinks_of(old_rest));
        }
    }
}

/// The key a note is known by: the part before any `#`, trimmed, with `\`
/// read as `/`, lower-cased and without trailing `.md`.
pub open spec fn note_key_of(note: Seq<char>) -> Seq<char> {
    let before = match first_occurrence(note, "#"@) {
        Some(k) => note.take(k),
        None => note,
    };
    trim_end_seq(unicode_lowercase(replace_chars(trim_ws(before), '\\', '/')), ".md"@)
}

pub fn normalized_note_key(note: &str) -> (k: String)
    ensures
        k@ == note_key_of(note@),
{
    proof {
        reveal_strlit("#");
        lemma_utf8_len_ascii("#"@);
    }
    let before = match find(note, "#") {
        Some(at) => {
            proof {
                lemma_split_at(note@, "#"@);
            }
            slice(note, 0, at)
        },
        None => note,
    };
    let replaced = replace_char(trim(before), '\\', '/');
    let lowered = to_lowercase(replaced.as_str());
    String::from_str(trim_end_matches_str(lowered.as_str(), ".md"))
}

/// The last component of a `/`-joined path.
pub open spec fn file_name_of(path: Seq<char>) -> Seq<char> {
    match last_index_of(path, '/') {
        Some(k) => path.skip(k + 1),
        None => path,
    }
}

/// Where the extension of a file name starts: after its last `.`, unless
/// that dot opens the name.
pub open spec fn extension_dot(name: Seq<char>) -> Option<int> {
    match last_index_of(name, '.') {
        Some(k) => if k > 0 {
            Some(k)
        } else {
            None
        },
        None => None,
    }
}

/// The file name without its extension, as `Path::file_stem` gives it.
pub open spec fn file_stem_of(path: Seq<char>) -> Option<Seq<char>> {
    let name = file_name_of(path);
    if name.len() == 0 || name == ".."@ {
        None
    } else {
        match extension_dot(name) {
            Some(k) => Some(name.take(k)),
            None => Some(name),
        }
    }
}

/// The extension of the file name, as `Path::extension` gives it.
pub open spec fn extension_of(path: Seq<char>) -> Option<Seq<char>> {
    let name = file_name_of(path);
    if name.len() == 0 || name == ".."@ {
        None
    } else {
        match extension_dot(name) {
            Some(k) => Some(name.skip(k + 1)),
            None => None,
        }
    }
}

proof fn lemma_split_char(s: Seq<char>, c: char, k: int)
    requires
        0 <= k < s.len(),
        s[k] == c,
        c == '/' || c == '.',
    ensures
        valid_range(s, 0, byte_offset(s, k) as int),
        valid_range(s, byte_offset(s, k) as int + 1, utf8_len(s) as int),
        slice_text(s, 0, byte_offset(s, k) as int) == s.take(k),
        slice_text(s, byte_offset(s, k) as int + 1, utf8_len(s) as int) == s.skip(k + 1),
{
    lemma_ends_are_boundaries(s);
    lemma_char_index(s, k);
    lemma_char_index(s, k + 1);
    crate::text::lemma_byte_offset_step(s, k);
    lemma_utf8_len_ascii(seq![c]);
    lemma_byte_offset_bounds(s, k + 1);
}

fn file_name(path: &str) -> (r: &str)
    ensures
        r@ == file_name_of(path@),
{
    match rfind_char(path, '/') {
        Some(at) => {
            proof {
                crate::strings::lemma_last_index_of(path@, '/');
                let k = last_index_of(path@, '/')->0;
                lemma_split_char(path@, '/', k);
            }
            let len = byte_len(path);
            slice(path, at + 1, len)
        },
        None => path,
    }
}

/// The file name of a relative path without its extension.
pub fn file_stem(path: &str) -> (r: Option<&str>)
    ensures
        match r {
            Some(s) => file_stem_of(path@) == Some(s@),
            None => file_stem_of(path@) is None,
        },
{
    let name = file_name(path);
    if name.is_empty() || str_equals(name, "..") {
        return None;
    }
    match rfind_char(name, '.') {
        Some(at) => {
            proof {
                crate::strings::lemma_last_index_of(name@, '.');
                let k = last_index_of(name@, '.')->0;
                lemma_split_char(name@, '.', k);
                if k > 0 {
                    crate::text::lemma_byte_offset_strict_mono(name@, 0, k);
                } else {
                    assert(name@.take(0) =~= Seq::<char>::empty());
                }
            }
            if at > 0 {
                Some(slice(name, 0, at))
            } else {
                Some(name)
            }
        },
        None => Some(name),
    }
}

fn extension(path: &str) -> (r: Option<&str>)
    ensures
        match r {
            Some(s) => extension_of(path@) == Some(s@),
            None => extension_of(path@) is None,
        },
{
    let name = file_name(path);
    if name.is_empty() || str_equals(name, "..") {
        return None;
    }
    match rfind_char(name, '.') {
        Some(at) => {
            proof {
                crate::strings::lemma_last_index_of(name@, '.');
                let k = last_index_of(name@, '.')->0;
                lemma_split_char(name@, '.', k);
                if k > 0 {
                    crate::text::lemma_byte_offset_strict_mono(name@, 0, k);
                }
            }
            if at > 0 {
                let len = byte_len(name);
                Some(slice(name, at + 1, len))
            } else {
                None
            }
        },
        None => None,
    }
}

pub open spec fn is_markdown_extension(e: Seq<char>) -> bool {
    e == "md"@ || e == "markdown"@ || e == "mdown"@ || e == "mkdn"@
}

/// Whether a path names a Markdown note, by its extension in any case.
pub fn is_markdown_path(path: &str) -> (b: bool)
    ensures
        b == (extension_of(path@) matches Some(e) && is_markdown_extension(ascii_lowercase(e))),
{
    match extension(path) {
        Some(e) => {
            let lowered = to_ascii_lowercase(e);
            let l = lowered.as_str();
            str_equals(l, "md") || str_equals(l, "markdown") || str_equals(l, "mdown")
                || str_equals(l, "mkdn")
        },
        None => false,
    }
}

/// Disk evidence of an entry met during a walk, to tell later whether the
/// folder may have changed. Paths are relative to the root; `.` is the root.
#[derive(Clone, Debug, PartialEq, Eq)]
pub struct ChangeMark {
    pub relative_path: String,
    pub byte_len: u64,
    /// Modification time in nanoseconds since the Unix epoch, when known.
    pub modified: Option<u128>,
    pub directory: bool,
}

#[derive(Clone, Debug, Default)]
pub struct WorkspaceChangeSnapshot {
    pub marks: Vec<ChangeMark>,
    pub truncated: bool,
}

impl ChangeMark {
    /// Whether what is on disk now differs from the mark: the entry is gone
    /// or unreadable (`None`), or its kind, size or modification time moved.
    /// `observed` is whether it is a directory, its size and its time.
    pub fn differs_from(&self, observed: Option<(bool, u64, Option<u128>)>) -> (b: bool)
        ensures
            b == match observed {
                None => true,
                Some((directory, byte_len, modified)) => directory != self.directory || byte_len
                    != self.byte_len || modified != self.modified,
            },
    {
        match observed {
            None => true,
            Some((directory, byte_len, modified)) => {
                let same_time = match (modified, self.modified) {
                    (Some(a), Some(b)) => a == b,
                    (None, None) => true,
                    _ => false,
                };
                directory != self.directory || byte_len != self.byte_len || !same_time
            },
        }
    }
}

#[derive(Clone, Copy, Debug, PartialEq, Eq, Structural)]
pub struct WorkspaceLimits {
    pub max_files: usize,
    pub max_note_bytes: u64,
    pub max_scanned_bytes: u64,
    pub max_indexed_content_bytes: usize,
}

impl Default for WorkspaceLimits {
    fn default() -> (l: WorkspaceLimits)
        ensures
            l == (WorkspaceLimits {
                max_files: DEFAULT_MAX_WORKSPACE_FILES,
                max_note_bytes: DEFAULT_MAX_WORKSPACE_NOTE_BYTES,
                max_scanned_bytes: DEFAULT_MAX_WORKSPACE_SCAN_BYTES,
                max_indexed_content_bytes: DEFAULT_MAX_INDEXED_CONTENT_BYTES,
            }),
    {
        WorkspaceLimits {
            max_files: DEFAULT_MAX_WORKSPACE_FILES,
            max_note_bytes: DEFAULT_MAX_WORKSPACE_NOTE_BYTES,
            max_scanned_bytes: DEFAULT_MAX_WORKSPACE_SCAN_BYTES,
            max_indexed_content_bytes: DEFAULT_MAX_INDEXED_CONTENT_BYTES,
        }
    }
}

/// What the index keeps of one note. Search, backlinks and the keyboard tree
/// are derived from it; nothing of it is persisted.
#[derive(Clone, Debug)]
pub struct WorkspaceNote {
    pub relative_path: String,
    pub title: String,
    pub headings: Vec<Heading>,
    pub wikilinks: Vec<WikiLink>,
    /// A bounded in-memory fragment of the source, only for local search.
    pub search_text: String,
    /// Evidence of the read already made, to avoid reading an untouched note
    /// again on an explicit refresh.
    pub source_byte_len: u64,
    /// Modification time in nanoseconds since the Unix epoch, when known.
    pub source_modified: Option<u128>,
}

/// The largest character boundary of `t` at or before byte `b`.
pub open spec fn boundary_at_or_before(t: Seq<char>, b: int) -> int
    decreases b,
{
    if b <= 0 {
        0
    } else if is_boundary(t, b) {
        b
    } else {
        boundary_at_or_before(t, b - 1)
    }
}

pub open spec fn min_of(a: int, b: int) -> int {
    if a <= b {
        a
    } else {
        b
    }
}

pub proof fn lemma_boundary_at_or_before(t: Seq<char>, b: int)
    requires
        b <= utf8_len(t),
    ensures
        is_boundary(t, boundary_at_or_before(t, b)),
        0 <= boundary_at_or_before(t, b),
        boundary_at_or_before(t, b) <= b || b < 0,
    decreases b,
{
    lemma_ends_are_boundaries(t);
    if b > 0 && !is_boundary(t, b) {
        lemma_boundary_at_or_before(t, b - 1);
    }
}

/// Cuts a text back to a character boundary at or before `keep`.
pub fn cut_at_boundary(text: &str, keep: usize) -> (end: usize)
    requires
        keep <= utf8_len(text@),
    ensures
        end == boundary_at_or_before(text@, keep as int),
        valid_range(text@, 0, end as int),
{
    let mut end = keep;
    while end > 0 && !text.is_char_boundary(end)
        invariant
            end <= keep,
            boundary_at_or_before(text@, keep as int) == boundary_at_or_before(text@, end as int),
        decreases end,
    {
        proof {
            crate::text::lemma_vstd_char_boundary(text@, end as int);
        }
        end = end - 1;
    }
    proof {
        crate::text::lemma_vstd_char_boundary(text@, end as int);
        lemma_boundary_at_or_before(text@, keep as int);
        lemma_ends_are_boundaries(text@);
    }
    end
}

/// The title of a note: its first heading, else its file stem, else "nota".
pub open spec fn title_of(path: Seq<char>, headings: Seq<(Seq<char>, u8)>) -> Seq<char> {
    if headings.len() > 0 {
        headings[0].0
    } else {
        match file_stem_of(path) {
            Some(stem) => stem,
            None => "nota"@,
        }
    }
}

/// How many bytes of a note's source are kept for search.
pub open spec fn kept_bytes(source: Seq<char>, available: int) -> int {
    boundary_at_or_before(
        source,
        min_of(min_of(available, MAX_INDEXED_BYTES_PER_NOTE as int), utf8_len(source) as int),
    )
}

/// What the index learns from a note that was just read: title, headings,
/// links and a bounded search fragment that never splits a character.
/// Returns the note, the bytes kept and whether the fragment is shorter than
/// the source.
pub fn note_from_source(
    relative_path: String,
    source: &str,
    source_byte_len: u64,
    source_modified: Option<u128>,
    available_content_bytes: usize,
) -> (r: (WorkspaceNote, usize, bool))
    ensures
        r.0.relative_path == relative_path,
        heading_views(r.0.headings@) == headings_of(lines_of(source@)),
        r.0.title@ == title_of(relative_path@, headings_of(lines_of(source@))),
        r.0.headings@.len() > 0 ==> r.0.title@ == r.0.headings@[0].text@,
        link_views(r.0.wikilinks@) == wikilinks_of(source@),
        r.1 == kept_bytes(source@, available_content_bytes as int),
        r.0.search_text@ == source@.take(char_index(source@, r.1 as int)),
        r.2 == (r.1 < utf8_len(source@)),
        r.0.source_byte_len == source_byte_len,
        r.0.source_modified == source_modified,
{
    let headings = headings_in(source);
    let title = if headings.len() > 0 {
        headings[0].text.clone()
    } else {
        match file_stem(relative_path.as_str()) {
            Some(stem) => String::from_str(stem),
            None => String::from_str("nota"),
        }
    };
    proof {
        if headings@.len() > 0 {
            assert(heading_views(headings@)[0] == headings@[0].view());
        }
    }
    let len = byte_len(source);
    let mut keep = available_content_bytes;
    if MAX_INDEXED_BYTES_PER_NOTE < keep {
        keep = MAX_INDEXED_BYTES_PER_NOTE;
    }
    if len < keep {
        keep = len;
    }
    let end = cut_at_boundary(source, keep);
    proof {
        lemma_ends_are_boundaries(source@);
        lemma_boundary_char_index(source@, end as int);
    }
    let search_text = String::from_str(slice(source, 0, end));
    let wikilinks = wikilinks_in(source);
    (
        WorkspaceNote {
            relative_path,
            title,
            headings,
            wikilinks,
            search_text,
            source_byte_len,
            source_modified,
        },
        end,
        end < len,
    )
}

fn copy_headings(v: &Vec<Heading>) -> (r: Vec<Heading>)
    ensures
        r@ == v@,
{
    let mut r: Vec<Heading> = Vec::new();
    let mut i: usize = 0;
    while i < v.len()
        invariant
            i <= v@.len(),
            r@ == v@.take(i as int),
        decreases v@.len() - i,
    {
        r.push(Heading { text: v[i].text.clone(), level: v[i].level });
        proof {
            assert(v@.take(i + 1) =~= v@.take(i as int).push(v@[i as int]));
        }
        i = i + 1;
    }
    proof {
        assert(v@.take(v@.len() as int) =~= v@);
    }
    r
}

fn copy_text(o: &Option<String>) -> (r: Option<String>)
    ensures
        r == *o,
{
    match o {
        Some(s) => Some(s.clone()),
        None => None,
    }
}

fn copy_links(v: &Vec<WikiLink>) -> (r: Vec<WikiLink>)
    ensures
        r@ == v@,
{
    let mut r: Vec<WikiLink> = Vec::new();
    let mut i: usize = 0;
    while i < v.len()
        invariant
            i <= v@.len(),
            r@ == v@.take(i as int),
        decreases v@.len() - i,
    {
        r.push(
            WikiLink {
                note: v[i].note.clone(),
                alias: copy_text(&v[i].alias),
                heading: copy_text(&v[i].heading),
            },
        );
        proof {
            assert(v@.take(i + 1) =~= v@.take(i as int).push(v@[i as int]));
        }
        i = i + 1;
    }
    proof {
        assert(v@.take(v@.len() as int) =~= v@);
    }
    r
}

/// The reading of a note that did not change on disk, reused under the
/// content budget that is left: its fragment is cut back, never extended.
/// Returns the note, the bytes kept and whether they fall short of the
/// source's size.
pub fn reused_note_with_content_limit(previous: &WorkspaceNote, available_content_bytes: usize) -> (r: (
    WorkspaceNote,
    usize,
    bool,
))
    ensures
        r.1 == boundary_at_or_before(
            previous.search_text@,
            min_of(available_content_bytes as int, utf8_len(previous.search_text@) as int),
        ),
        r.0.search_text@ == previous.search_text@.take(
            char_index(previous.search_text@, r.1 as int),
        ),
        r.2 == (r.1 < min_of(previous.source_byte_len as int, usize::MAX as int)),
        r.0.relative_path == previous.relative_path,
        r.0.title == previous.title,
        r.0.headings@ == previous.headings@,
        r.0.wikilinks@ == previous.wikilinks@,
        r.0.source_byte_len == previous.source_byte_len,
        r.0.source_modified == previous.source_modified,
{
    let text = previous.search_text.as_str();
    let len = byte_len(text);
    let keep = if available_content_bytes < len {
        available_content_bytes
    } else {
        len
    };
    let end = cut_at_boundary(text, keep);
    proof {
        lemma_ends_are_boundaries(text@);
        lemma_boundary_char_index(text@, end as int);
    }
    let note = WorkspaceNote {
        relative_path: previous.relative_path.clone(),
        title: previous.title.clone(),
        headings: copy_headings(&previous.headings),
        wikilinks: copy_links(&previous.wikilinks),
        search_text: String::from_str(slice(text, 0, end)),
        source_byte_len: previous.source_byte_len,
        source_modified: previous.source_modified,
    };
    let source_len: usize = if previous.source_byte_len <= usize::MAX as u64 {
        previous.source_byte_len as usize
    } else {
        usize::MAX
    };
    (note, end, end < source_len)
}

/// How a wikilink resolved. A bare note name that several files share picks
/// none of them.
#[derive(Debug)]
pub enum WikiResolution<'a> {
    Found(&'a WorkspaceNote),
    Missing,
    Ambiguous,
}

#[derive(Clone, Debug)]
pub struct WorkspaceIndex {
    pub notes: Vec<WorkspaceNote>,
    pub skipped: usize,
    pub truncated: bool,
    pub indexed_content_bytes: usize,
    pub content_truncated: bool,
    pub scanned_bytes: u64,
    pub scan_truncated: bool,
    /// The walk was interrupted by a later action: a cancelled result never
    /// replaces the active index.
    pub cancelled: bool,
    pub change_marks: Vec<ChangeMark>,
    pub change_marks_truncated: bool,
}

impl Default for WorkspaceIndex {
    fn default() -> (i: WorkspaceIndex)
        ensures
            i.notes@.len() == 0,
            i.skipped == 0,
            !i.truncated,
            i.indexed_content_bytes == 0,
            !i.content_truncated,
            i.scanned_bytes == 0,
            !i.scan_truncated,
            !i.cancelled,
            i.change_marks@.len() == 0,
            !i.change_marks_truncated,
    {
        WorkspaceIndex {
            notes: Vec::new(),
            skipped: 0,
            truncated: false,
            indexed_content_bytes: 0,
            content_truncated: false,
            scanned_bytes: 0,
            scan_truncated: false,
            cancelled: false,
            change_marks: Vec::new(),
            change_marks_truncated: false,
        }
    }
}

/// A wikilink target names a path when it holds a separator or ends in `.md`.
pub open spec fn declares_path(target: Seq<char>) -> bool {
    contains_seq(target, "/"@) || contains_seq(target, "\\"@) || {
        let t = ascii_lowercase(trim_ws(target));
        ".md"@.len() <= t.len() && t.skip(t.len() - ".md"@.len()) == ".md"@
    }
}

/// First note, from `i` on, whose whole path has key `key`.
pub open spec fn path_match_from(notes: Seq<WorkspaceNote>, key: Seq<char>, i: int) -> Option<int>
    decreases notes.len() - i,
{
    if i < 0 || i >= notes.len() {
        None
    } else if note_key_of(notes[i].relative_path@) == key {
        Some(i)
    } else {
        path_match_from(notes, key, i + 1)
    }
}

pub open spec fn stem_has_key(path: Seq<char>, key: Seq<char>) -> bool {
    file_stem_of(path) matches Some(stem) && note_key_of(stem) == key
}

/// Indices, among the first `n` notes, of those whose file stem has key `key`.
pub open spec fn stem_matches(notes: Seq<WorkspaceNote>, key: Seq<char>, n: nat) -> Seq<int>
    decreases n,
{
    if n == 0 {
        Seq::empty()
    } else {
        stem_matches(notes, key, (n - 1) as nat) + if stem_has_key(
            notes[n - 1].relative_path@,
            key,
        ) {
            seq![n - 1]
        } else {
            Seq::empty()
        }
    }
}

/// The note a wikilink target resolves to, if exactly one: a target that
/// names a path matches whole paths first; otherwise the file stem must be
/// unique.
pub open spec fn wiki_target(notes: Seq<WorkspaceNote>, target: Seq<char>) -> Option<int> {
    let key = note_key_of(target);
    if key.len() == 0 {
        None
    } else if declares_path(target) && path_match_from(notes, key, 0) is Some {
        path_match_from(notes, key, 0)
    } else {
        let stems = stem_matches(notes, key, notes.len());
        if stems.len() == 1 {
            Some(stems[0])
        } else {
            None
        }
    }
}

/// The target's stem is shared by several notes and no path decides.
pub open spec fn wiki_ambiguous(notes: Seq<WorkspaceNote>, target: Seq<char>) -> bool {
    let key = note_key_of(target);
    key.len() > 0 && !(declares_path(target) && path_match_from(notes, key, 0) is Some)
        && stem_matches(notes, key, notes.len()).len() >= 2
}

/// Notes, among the first `n`, with a wikilink that resolves to a note at `path`.
pub open spec fn backlink_indices(notes: Seq<WorkspaceNote>, path: Seq<char>, n: nat) -> Seq<int>
    decreases n,
{
    if n == 0 {
        Seq::empty()
    } else {
        backlink_indices(notes, path, (n - 1) as nat) + if links_to(notes, notes[n - 1], path) {
            seq![n - 1]
        } else {
            Seq::empty()
        }
    }
}

pub open spec fn links_to(notes: Seq<WorkspaceNote>, note: WorkspaceNote, path: Seq<char>) -> bool {
    exists|k: int|
        0 <= k < note.wikilinks@.len() && (wiki_target(notes, #[trigger] note.wikilinks@[k].note@)
            matches Some(j) && notes[j].relative_path@ == path)
}

/// Whether a note matches a lower-cased, trimmed query: in its title, path,
/// headings or search fragment.
pub open spec fn note_matches(note: WorkspaceNote, q: Seq<char>) -> bool {
    ||| contains_seq(unicode_lowercase(note.title@), q)
    ||| contains_seq(unicode_lowercase(note.relative_path@), q)
    ||| exists|k: int|
        0 <= k < note.headings@.len() && contains_seq(
            unicode_lowercase(#[trigger] note.headings@[k].text@),
            q,
        )
    ||| contains_seq(unicode_lowercase(note.search_text@), q)
}

pub open spec fn search_indices(notes: Seq<WorkspaceNote>, q: Seq<char>, n: nat) -> Seq<int>
    decreases n,
{
    if n == 0 {
        Seq::empty()
    } else {
        search_indices(notes, q, (n - 1) as nat) + if note_matches(notes[n - 1], q) {
            seq![n - 1]
        } else {
            Seq::empty()
        }
    }
}

/// The notes a list of references points at are those at the given indices.
pub open spec fn refs_are(v: Seq<&WorkspaceNote>, notes: Seq<WorkspaceNote>, idx: Seq<int>) -> bool {
    &&& v.len() == idx.len()
    &&& forall|k: int| 0 <= k < idx.len() ==> 0 <= #[trigger] idx[k] < notes.len()
    &&& forall|k: int| 0 <= k < v.len() ==> *#[trigger] v[k] == notes[idx[k]]
}

proof fn lemma_refs_push(
    v: Seq<&WorkspaceNote>,
    notes: Seq<WorkspaceNote>,
    idx: Seq<int>,
    r: &WorkspaceNote,
    i: int,
)
    requires
        refs_are(v, notes, idx),
        0 <= i < notes.len(),
        *r == notes[i],
    ensures
        refs_are(v.push(r), notes, idx.push(i)),
{
    assert forall|k: int| 0 <= k < idx.push(i).len() implies 0 <= #[trigger] idx.push(i)[k]
        < notes.len() by {
        if k < idx.len() {
            assert(idx.push(i)[k] == idx[k]);
        }
    }
    assert forall|k: int| 0 <= k < v.push(r).len() implies *#[trigger] v.push(r)[k]
        == notes[idx.push(i)[k]] by {
        if k < v.len() {
            assert(v.push(r)[k] == v[k]);
            assert(idx.push(i)[k] == idx[k]);
        }
    }
}

proof fn lemma_path_match_from(notes: Seq<WorkspaceNote>, key: Seq<char>, i: int)
    requires
        0 <= i,
    ensures
        path_match_from(notes, key, i) matches Some(j) ==> i <= j < notes.len(),
    decreases notes.len() - i,
{
    if i < notes.len() && note_key_of(notes[i].relative_path@) != key {
        lemma_path_match_from(notes, key, i + 1);
    }
}

impl WorkspaceIndex {
    /// The evidence recorded during the walk, to check later for changes.
    pub fn change_snapshot(&self) -> (s: WorkspaceChangeSnapshot)
        ensures
            s.marks@ == self.change_marks@,
            s.truncated == self.change_marks_truncated,
    {
        let mut marks: Vec<ChangeMark> = Vec::new();
        let mut i: usize = 0;
        while i < self.change_marks.len()
            invariant
                i <= self.change_marks@.len(),
                marks@ == self.change_marks@.take(i as int),
            decreases self.change_marks@.len() - i,
        {
            let m = &self.change_marks[i];
            marks.push(
                ChangeMark {
                    relative_path: m.relative_path.clone(),
                    byte_len: m.byte_len,
                    modified: m.modified,
                    directory: m.directory,
                },
            );
            proof {
                assert(self.change_marks@.take(i + 1) =~= self.change_marks@.take(i as int).push(
                    self.change_marks@[i as int],
                ));
            }
            i = i + 1;
        }
        proof {
            assert(self.change_marks@.take(self.change_marks@.len() as int) =~= self.change_marks@);
        }
        WorkspaceChangeSnapshot { marks, truncated: self.change_marks_truncated }
    }

    /// Only relative paths that went through the contained walk; the caller
    /// resolves them again before opening.
    pub fn note_paths(&self) -> (v: Vec<String>)
        ensures
            v@.len() == self.notes@.len(),
            forall|i: int| 0 <= i < v@.len() ==> v@[i] == self.notes@[i].relative_path,
    {
        let mut paths: Vec<String> = Vec::new();
        let mut i: usize = 0;
        while i < self.notes.len()
            invariant
                i <= self.notes@.len(),
                paths@.len() == i,
                forall|j: int| 0 <= j < i ==> paths@[j] == self.notes@[j].relative_path,
            decreases self.notes@.len() - i,
        {
            paths.push(self.notes[i].relative_path.clone());
            i = i + 1;
        }
        paths
    }

    /// The note at a path already relative to the root, if indexed.
    pub fn note_at_relative(&self, relative_path: &str) -> (r: Option<&WorkspaceNote>)
        ensures
            match r {
                Some(n) => exists|i: int|
                    0 <= i < self.notes@.len() && *n == self.notes@[i] && self.notes@[i].relative_path@
                        == relative_path@ && forall|j: int|
                        0 <= j < i ==> self.notes@[j].relative_path@ != relative_path@,
                None => forall|j: int|
                    0 <= j < self.notes@.len() ==> self.notes@[j].relative_path@ != relative_path@,
            },
    {
        let mut i: usize = 0;
        while i < self.notes.len()
            invariant
                i <= self.notes@.len(),
                forall|j: int| 0 <= j < i ==> self.notes@[j].relative_path@ != relative_path@,
            decreases self.notes@.len() - i,
        {
            if str_equals(self.notes[i].relative_path.as_str(), relative_path) {
                return Some(&self.notes[i]);
            }
            i = i + 1;
        }
        None
    }

    /// Resolves the note part of a wikilink against the index alone, never
    /// touching the disk.
    pub fn resolve_wikilink(&self, target: &str) -> (r: WikiResolution<'_>)
        ensures
            match r {
                WikiResolution::Found(n) => wiki_target(self.notes@, target@) matches Some(i) && 0
                    <= i < self.notes@.len() && *n == self.notes@[i],
                WikiResolution::Missing => wiki_target(self.notes@, target@) is None && !wiki_ambiguous(
                    self.notes@,
                    target@,
                ),
                WikiResolution::Ambiguous => wiki_target(self.notes@, target@) is None
                    && wiki_ambiguous(self.notes@, target@),
            },
    {
        proof {
            reveal_strlit(".md");
        }
        let lowered = to_ascii_lowercase(trim(target));
        let target_declares_path = contains(target, "/") || contains(target, "\\") || ends_with(
            lowered.as_str(),
            ".md",
        );
        let key = normalized_note_key(target);
        if key.as_str().is_empty() {
            return WikiResolution::Missing;
        }
        proof {
            assert(target_declares_path == declares_path(target@));
        }
        if target_declares_path {
            let mut i: usize = 0;
            while i < self.notes.len()
                invariant
                    i <= self.notes@.len(),
                    key@ == note_key_of(target@),
                    key@.len() > 0,
                    target_declares_path == declares_path(target@),
                    target_declares_path,
                    path_match_from(self.notes@, key@, 0) == path_match_from(
                        self.notes@,
                        key@,
                        i as int,
                    ),
                decreases self.notes@.len() - i,
            {
                let relative = normalized_note_key(self.notes[i].relative_path.as_str());
                if str_equals(relative.as_str(), key.as_str()) {
                    return WikiResolution::Found(&self.notes[i]);
                }
                i = i + 1;
            }
        }
        let mut first: Option<usize> = None;
        let mut second = false;
        let mut i: usize = 0;
        while i < self.notes.len() && !second
            invariant
                i <= self.notes@.len(),
                key@ == note_key_of(target@),
                key@.len() > 0,
                !(declares_path(target@) && path_match_from(self.notes@, key@, 0) is Some),
                second ==> stem_matches(self.notes@, key@, i as nat).len() >= 2,
                !second ==> match first {
                    Some(f) => stem_matches(self.notes@, key@, i as nat) == seq![f as int],
                    None => stem_matches(self.notes@, key@, i as nat).len() == 0,
                },
                first matches Some(f) ==> f < self.notes@.len(),
            decreases self.notes@.len() - i,
        {
            let matches = match file_stem(self.notes[i].relative_path.as_str()) {
                Some(stem) => {
                    let k = normalized_note_key(stem);
                    str_equals(k.as_str(), key.as_str())
                },
                None => false,
            };
            if matches {
                if first.is_none() {
                    first = Some(i);
                } else {
                    second = true;
                }
            }
            i = i + 1;
        }
        proof {
            lemma_stem_matches_grows(self.notes@, key@, i as nat, self.notes@.len());
        }
        if second {
            return WikiResolution::Ambiguous;
        }
        match first {
            Some(f) => WikiResolution::Found(&self.notes[f]),
            None => WikiResolution::Missing,
        }
    }

    /// Notes with a wikilink that resolves, with the same caution as
    /// navigation, to the given note; an ambiguous link counts for none.
    pub fn backlinks_to(&self, target: &WorkspaceNote) -> (v: Vec<&WorkspaceNote>)
        ensures
            refs_are(
                v@,
                self.notes@,
                backlink_indices(self.notes@, target.relative_path@, self.notes@.len()),
            ),
    {
        let mut found: Vec<&WorkspaceNote> = Vec::new();
        let mut i: usize = 0;
        while i < self.notes.len()
            invariant
                i <= self.notes@.len(),
                refs_are(
                    found@,
                    self.notes@,
                    backlink_indices(self.notes@, target.relative_path@, i as nat),
                ),
            decreases self.notes@.len() - i,
        {
            let note = &self.notes[i];
            let mut linked = false;
            let mut k: usize = 0;
            while k < note.wikilinks.len() && !linked
                invariant
                    i < self.notes@.len(),
                    *note == self.notes@[i as int],
                    k <= note.wikilinks@.len(),
                    linked ==> links_to(self.notes@, *note, target.relative_path@),
                    !linked ==> forall|m: int|
                        0 <= m < k ==> !(wiki_target(self.notes@, #[trigger] note.wikilinks@[m].note@)
                            matches Some(j) && self.notes@[j].relative_path@
                            == target.relative_path@),
                decreases note.wikilinks@.len() - k,
            {
                match self.resolve_wikilink(note.wikilinks[k].note.as_str()) {
                    WikiResolution::Found(resolved) => {
                        if str_equals(resolved.relative_path.as_str(), target.relative_path.as_str()) {
                            linked = true;
                        }
                    },
                    _ => {},
                }
                k = k + 1;
            }
            let ghost before = found@;
            if linked {
                found.push(note);
            }
            proof {
                let idx = backlink_indices(self.notes@, target.relative_path@, (i + 1) as nat);
                let prev = backlink_indices(self.notes@, target.relative_path@, i as nat);
                assert(links_to(self.notes@, *note, target.relative_path@) == linked);
                if linked {
                    assert(idx =~= prev.push(i as int));
                    assert(found@ =~= before.push(note));
                    lemma_refs_push(before, self.notes@, prev, note, i as int);
                } else {
                    assert(idx =~= prev);
                    assert(found@ == before);
                    assert(refs_are(before, self.notes@, prev));
                    assert(refs_are(found@, self.notes@, idx));
                }
            }
            i = i + 1;
        }
        found
    }

    /// Notes whose title, path, headings or search fragment contain the
    /// query, compared trimmed and lower-cased; an empty query finds nothing.
    pub fn search(&self, query: &str) -> (v: Vec<&WorkspaceNote>)
        ensures
            unicode_lowercase(trim_ws(query@)).len() == 0 ==> v@.len() == 0,
            unicode_lowercase(trim_ws(query@)).len() > 0 ==> refs_are(
                v@,
                self.notes@,
                search_indices(self.notes@, unicode_lowercase(trim_ws(query@)), self.notes@.len()),
            ),
    {
        let q = to_lowercase(trim(query));
        let mut found: Vec<&WorkspaceNote> = Vec::new();
        if q.as_str().is_empty() {
            return found;
        }
        let qs = q.as_str();
        let mut i: usize = 0;
        while i < self.notes.len()
            invariant
                i <= self.notes@.len(),
                qs@ == unicode_lowercase(trim_ws(query@)),
                refs_are(found@, self.notes@, search_indices(self.notes@, qs@, i as nat)),
            decreases self.notes@.len() - i,
        {
            let note = &self.notes[i];
            let mut hit = contains(to_lowercase(note.title.as_str()).as_str(), qs) || contains(
                to_lowercase(note.relative_path.as_str()).as_str(),
                qs,
            );
            let mut k: usize = 0;
            while !hit && k < note.headings.len()
                invariant
                    i < self.notes@.len(),
                    *note == self.notes@[i as int],
                    k <= note.headings@.len(),
                    hit ==> note_matches(*note, qs@),
                    !hit ==> !contains_seq(unicode_lowercase(note.title@), qs@) && !contains_seq(
                        unicode_lowercase(note.relative_path@),
                        qs@,
                    ) && forall|m: int|
                        0 <= m < k ==> !contains_seq(
                            unicode_lowercase(#[trigger] note.headings@[m].text@),
                            qs@,
                        ),
                decreases note.headings@.len() - k,
            {
                if contains(to_lowercase(note.headings[k].text.as_str()).as_str(), qs) {
                    hit = true;
                }
                k = k + 1;
            }
            if !hit {
                hit = contains(to_lowercase(note.search_text.as_str()).as_str(), qs);
            }
            let ghost before = found@;
            if hit {
                found.push(note);
            }
            proof {
                let idx = search_indices(self.notes@, qs@, (i + 1) as nat);
                let prev = search_indices(self.notes@, qs@, i as nat);
                assert(note_matches(*note, qs@) == hit);
                if hit {
                    assert(idx =~= prev.push(i as int));
                    assert(found@ =~= before.push(note));
                    lemma_refs_push(before, self.notes@, prev, note, i as int);
                } else {
                    assert(idx =~= prev);
                    assert(found@ == before);
                    assert(refs_are(before, self.notes@, prev));
                    assert(refs_are(found@, self.notes@, idx));
                }
            }
            i = i + 1;
        }
        found
    }
}

proof fn lemma_stem_matches_grows(notes: Seq<WorkspaceNote>, key: Seq<char>, m: nat, n: nat)
    requires
        m <= n,
    ensures
        stem_matches(notes, key, m).len() <= stem_matches(notes, key, n).len(),
        stem_matches(notes, key, m).len() >= 2 ==> stem_matches(notes, key, n).len() >= 2,
        stem_matches(notes, key, m).len() > 0 ==> stem_matches(notes, key, n)[0] == stem_matches(
            notes,
            key,
            m,
        )[0],
    decreases n - m,
{
    if m < n {
        lemma_stem_matches_grows(notes, key, m, (n - 1) as nat);
    }
}

/// What the walk does with a Markdown file once its size is known.
#[derive(Clone, Copy, Debug, PartialEq, Eq, Structural)]
pub enum NoteAdmission {
    /// Read it (or reuse its earlier reading).
    Read,
    /// Leave it out and go on.
    Skip,
    /// The scan budget is spent: stop the walk.
    Stop,
}

/// A sum of byte counts that stops at the largest `u64`.
pub open spec fn saturating_sum(a: u64, b: u64) -> int {
    if a + b <= u64::MAX {
        a + b
    } else {
        u64::MAX as int
    }
}

/// Folders of other tools that the walk never enters: they hold plugin
/// settings, history and possibly secrets, not notes.
pub fn is_ignored_entry_name(name: &str) -> (b: bool)
    ensures
        b == (name@ == ".git"@ || name@ == ".obsidian"@),
{
    str_equals(name, ".git") || str_equals(name, ".obsidian")
}

/// The path recorded for an entry: relative to the root, or `.` for the root.
pub open spec fn mark_path_of(relative: Seq<char>) -> Seq<char> {
    if relative.len() == 0 {
        "."@
    } else {
        relative
    }
}

impl WorkspaceNote {
    /// Whether the disk still shows the evidence of this note's reading.
    pub fn is_unchanged(&self, byte_len: u64, modified: Option<u128>) -> (b: bool)
        ensures
            b == (self.source_byte_len == byte_len && self.source_modified == modified),
    {
        let same_time = match (self.source_modified, modified) {
            (Some(a), Some(b)) => a == b,
            (None, None) => true,
            _ => false,
        };
        self.source_byte_len == byte_len && same_time
    }
}

impl WorkspaceIndex {
    /// Marks the walk as interrupted.
    pub fn cancel(&mut self)
        ensures
            final(self).cancelled,
            final(self).notes == old(self).notes,
            final(self).truncated == old(self).truncated,
            final(self).skipped == old(self).skipped,
    {
        self.cancelled = true;
    }

    /// Counts an entry that could not be read or was left out.
    pub fn record_skip(&mut self)
        requires
            old(self).skipped < usize::MAX,
        ensures
            final(self).skipped == old(self).skipped + 1,
            final(self).notes == old(self).notes,
            final(self).scanned_bytes == old(self).scanned_bytes,
            *final(self) == (WorkspaceIndex { skipped: (old(self).skipped + 1) as usize, ..*old(self) }),
    {
        self.skipped = self.skipped + 1;
    }

    /// Whether the index already holds as many notes as allowed; if so the
    /// index is marked truncated and the walk must stop.
    pub fn reached_file_limit(&mut self, limits: WorkspaceLimits) -> (b: bool)
        ensures
            b == (old(self).notes@.len() >= limits.max_files),
            final(self).truncated == (old(self).truncated || b),
            final(self).notes == old(self).notes,
            final(self).skipped == old(self).skipped,
            final(self).scanned_bytes == old(self).scanned_bytes,
            *final(self) == (WorkspaceIndex { truncated: old(self).truncated || b, ..*old(self) }),
    {
        if self.notes.len() >= limits.max_files {
            self.truncated = true;
            true
        } else {
            false
        }
    }

    /// Decides on a Markdown file of `byte_len` bytes: too large a note is
    /// skipped; one that would overrun the scan budget stops the walk;
    /// otherwise its bytes are counted as scanned and it is read.
    pub fn admit_note_bytes(&mut self, byte_len: u64, limits: WorkspaceLimits) -> (a: NoteAdmission)
        requires
            old(self).skipped < usize::MAX,
        ensures
            byte_len > limits.max_note_bytes ==> a is Skip && final(self).skipped == old(self).skipped
                + 1 && final(self).scanned_bytes == old(self).scanned_bytes,
            byte_len <= limits.max_note_bytes && saturating_sum(old(self).scanned_bytes, byte_len)
                > limits.max_scanned_bytes ==> a is Stop && final(self).scan_truncated
                && final(self).scanned_bytes == old(self).scanned_bytes && final(self).skipped
                == old(self).skipped,
            byte_len <= limits.max_note_bytes && saturating_sum(old(self).scanned_bytes, byte_len)
                <= limits.max_scanned_bytes ==> a is Read && final(self).scanned_bytes
                == saturating_sum(old(self).scanned_bytes, byte_len) && final(self).skipped == old(self).skipped,
            !(a is Stop) ==> final(self).scan_truncated == old(self).scan_truncated,
            final(self).notes == old(self).notes,
            final(self).truncated == old(self).truncated,
            *final(self) == (if byte_len > limits.max_note_bytes {
                WorkspaceIndex { skipped: (old(self).skipped + 1) as usize, ..*old(self) }
            } else if saturating_sum(old(self).scanned_bytes, byte_len) > limits.max_scanned_bytes {
                WorkspaceIndex { scan_truncated: true, ..*old(self) }
            } else {
                WorkspaceIndex { scanned_bytes: saturating_sum(old(self).scanned_bytes, byte_len) as u64, ..*old(self) }
            }),
    {
        if byte_len > limits.max_note_bytes {
            self.skipped = self.skipped + 1;
            return NoteAdmission::Skip;
        }
        let total = self.scanned_bytes.saturating_add(byte_len);
        if total > limits.max_scanned_bytes {
            self.scan_truncated = true;
            return NoteAdmission::Stop;
        }
        self.scanned_bytes = total;
        NoteAdmission::Read
    }

    /// Bytes of search text still allowed under the global budget.
    pub fn available_content(&self, limits: WorkspaceLimits) -> (n: usize)
        ensures
            n == if limits.max_indexed_content_bytes >= self.indexed_content_bytes {
                limits.max_indexed_content_bytes - self.indexed_content_bytes
            } else {
                0
            },
    {
        limits.max_indexed_content_bytes.saturating_sub(self.indexed_content_bytes)
    }

    /// Adds a note read (or reused) during the walk, with the bytes of search
    /// text it keeps and whether they were cut short.
    pub fn add_note(&mut self, note: WorkspaceNote, indexed_bytes: usize, content_truncated: bool)
        ensures
            final(self).notes@ == old(self).notes@.push(note),
            final(self).indexed_content_bytes == if old(self).indexed_content_bytes + indexed_bytes
                <= usize::MAX {
                old(self).indexed_content_bytes + indexed_bytes
            } else {
                usize::MAX as int
            },
            final(self).content_truncated == (old(self).content_truncated || content_truncated),
            final(self).skipped == old(self).skipped,
            final(self).truncated == old(self).truncated,
            final(self).scanned_bytes == old(self).scanned_bytes,
    {
        self.indexed_content_bytes = self.indexed_content_bytes.saturating_add(indexed_bytes);
        self.content_truncated = self.content_truncated || content_truncated;
        self.notes.push(note);
    }

    /// Records the disk evidence of an entry, when its metadata could be
    /// read, until the bounded list is full; then it only marks the list as
    /// truncated.
    pub fn record_change_mark(
        &mut self,
        relative_path: &str,
        metadata: Option<(u64, Option<u128>)>,
        directory: bool,
    )
        ensures
            old(self).change_marks@.len() >= MAX_CHANGE_MARKS ==> final(self).change_marks@
                == old(self).change_marks@ && final(self).change_marks_truncated,
            old(self).change_marks@.len() < MAX_CHANGE_MARKS ==> final(self).change_marks_truncated
                == old(self).change_marks_truncated && match metadata {
                Some((len, modified)) => final(self).change_marks@.len() == old(
                    self,
                ).change_marks@.len() + 1 && final(self).change_marks@.take(
                    old(self).change_marks@.len() as int,
                ) == old(self).change_marks@ && final(self).change_marks@.last().relative_path@
                    == mark_path_of(relative_path@) && final(self).change_marks@.last().byte_len
                    == len && final(self).change_marks@.last().modified == modified
                    && final(self).change_marks@.last().directory == directory,
                None => final(self).change_marks@ == old(self).change_marks@,
            },
            final(self).notes == old(self).notes,
            final(self).skipped == old(self).skipped,
    {
        if self.change_marks.len() >= MAX_CHANGE_MARKS {
            self.change_marks_truncated = true;
            return;
        }
        match metadata {
            Some((len, modified)) => {
                let path = if relative_path.is_empty() {
                    String::from_str(".")
                } else {
                    String::from_str(relative_path)
                };
                self.change_marks.push(
                    ChangeMark { relative_path: path, byte_len: len, modified, directory },
                );
            },
            None => {},
        }
    }
}

/// A wikilink never has an empty destination, however malformed the text.
pub proof fn lemma_wikilinks_have_destinations(source: Seq<char>)
    ensures
        forall|i: int|
            0 <= i < wikilinks_of(source).len() ==> (#[trigger] wikilinks_of(source)[i]).0.len() > 0,
    decreases source.len(),
{
    match first_occurrence(source, "[["@) {
        None => {},
        Some(k) => if k < 0 || k + 2 > source.len() {
        } else {
            let after = source.skip(k + 2);
            match first_occurrence(after, "]]"@) {
                None => {},
                Some(e) => if e < 0 || e + 2 > after.len() {
                } else {
                    let rest = after.skip(e + 2);
                    lemma_wikilinks_have_destinations(rest);
                    let head: Seq<(Seq<char>, Option<Seq<char>>, Option<Seq<char>>)> = match link_of(trim_ws(after.take(e))) {
                        Some(l) => seq![l],
                        None => Seq::empty(),
                    };
                    let all = wikilinks_of(source);
                    assert(all == head + wikilinks_of(rest));
                    assert forall|i: int| 0 <= i < all.len() implies (#[trigger] all[i]).0.len() > 0 by {
                        if i >= head.len() {
                            assert(all[i] == wikilinks_of(rest)[i - head.len()]);
                        }
                    }
                },
            }
        },
    }
}

} // verus!
