//! Small, versioned local preferences.
//!
//! They hold no text, no document path and no permission granted by a vault:
//! a document is remembered only by a hash of its path. A missing, oversized
//! or invalid file falls back to safe values.
use vstd::prelude::*;
use crate::strings::{
    ascii_lowercase, chars_of, find, first_occurrence, lemma_split_at, slice, str_equals,
    to_ascii_lowercase, trim, trim_ws,
};
use crate::text::{lemma_utf8_len_ascii, utf8_len};
use crate::workspace::{lines, lines_of, texts};

verus! {

pub const SETTINGS_VERSION: u32 = 2;

/// Larger settings files are ignored.
pub const MAX_SETTINGS_BYTES: u64 = 16384;

/// Most documents whose reading mode is remembered.
pub const MAX_DOCUMENT_MODES: usize = 128;

#[derive(Clone, Copy, Debug, PartialEq, Eq, Structural)]
pub enum DocumentModePreference {
    Reading,
    Editing,
    Split,
}

pub open spec fn mode_code(mode: DocumentModePreference) -> Seq<char> {
    match mode {
        DocumentModePreference::Reading => "r"@,
        DocumentModePreference::Editing => "e"@,
        DocumentModePreference::Split => "s"@,
    }
}

pub open spec fn mode_of_code(code: Seq<char>) -> Option<DocumentModePreference> {
    if code == "r"@ {
        Some(DocumentModePreference::Reading)
    } else if code == "e"@ {
        Some(DocumentModePreference::Editing)
    } else if code == "s"@ {
        Some(DocumentModePreference::Split)
    } else {
        None
    }
}

impl DocumentModePreference {
    pub fn code(self) -> (c: &'static str)
        ensures
            c@ == mode_code(self),
    {
        match self {
            DocumentModePreference::Reading => "r",
            DocumentModePreference::Editing => "e",
            DocumentModePreference::Split => "s",
        }
    }

    pub fn parse(code: &str) -> (m: Option<DocumentModePreference>)
        ensures
            m == mode_of_code(code@),
    {
        if str_equals(code, "r") {
            Some(DocumentModePreference::Reading)
        } else if str_equals(code, "e") {
            Some(DocumentModePreference::Editing)
        } else if str_equals(code, "s") {
            Some(DocumentModePreference::Split)
        } else {
            None
        }
    }
}

/// Code and decoding agree.
pub proof fn lemma_mode_code_round_trip(mode: DocumentModePreference)
    ensures
        mode_of_code(mode_code(mode)) == Some(mode),
{
    reveal_strlit("r");
    reveal_strlit("e");
    reveal_strlit("s");
    assert("e"@[0] != "r"@[0]);
    assert("s"@[0] != "r"@[0]);
    assert("s"@[0] != "e"@[0]);
}

#[derive(Clone, Debug, PartialEq, Eq)]
pub struct Settings {
    pub recovery_enabled: bool,
    /// Document keys with their remembered mode, oldest first.
    pub document_modes: Vec<(String, DocumentModePreference)>,
}

/// A remembered mode seen as plain values.
pub open spec fn modes_view(v: Seq<(String, DocumentModePreference)>) -> Seq<(Seq<char>, DocumentModePreference)> {
    v.map_values(|e: (String, DocumentModePreference)| (e.0@, e.1))
}

impl Default for Settings {
    fn default() -> (s: Settings)
        ensures
            s.recovery_enabled,
            s.document_modes@.len() == 0,
    {
        Settings { recovery_enabled: true, document_modes: Vec::new() }
    }
}

/// The entries without those for `key`.
pub open spec fn without_key(modes: Seq<(Seq<char>, DocumentModePreference)>, key: Seq<char>) -> Seq<(Seq<char>, DocumentModePreference)>
    decreases modes.len(),
{
    if modes.len() == 0 {
        modes
    } else {
        without_key(modes.drop_last(), key) + if modes.last().0 == key {
            Seq::empty()
        } else {
            seq![modes.last()]
        }
    }
}

/// The mode last remembered for `key`.
pub open spec fn mode_for(modes: Seq<(Seq<char>, DocumentModePreference)>, key: Seq<char>) -> Option<DocumentModePreference>
    decreases modes.len(),
{
    if modes.len() == 0 {
        None
    } else if modes.last().0 == key {
        Some(modes.last().1)
    } else {
        mode_for(modes.drop_last(), key)
    }
}

/// Remembering a mode: older entries for the same key go, the new one goes
/// last, and only the most recent entries within the bound stay.
pub open spec fn remembered(
    modes: Seq<(Seq<char>, DocumentModePreference)>,
    key: Seq<char>,
    mode: DocumentModePreference,
) -> Seq<(Seq<char>, DocumentModePreference)> {
    let all = without_key(modes, key).push((key, mode));
    if all.len() > MAX_DOCUMENT_MODES {
        all.skip(all.len() - MAX_DOCUMENT_MODES)
    } else {
        all
    }
}

proof fn lemma_without_key_len(modes: Seq<(Seq<char>, DocumentModePreference)>, key: Seq<char>)
    ensures
        without_key(modes, key).len() <= modes.len(),
    decreases modes.len(),
{
    if modes.len() > 0 {
        lemma_without_key_len(modes.drop_last(), key);
    }
}

impl Settings {
    /// The mode remembered for a document key, the latest if several.
    pub fn document_mode(&self, key: &str) -> (m: Option<DocumentModePreference>)
        ensures
            m == mode_for(modes_view(self.document_modes@), key@),
    {
        let mut i = self.document_modes.len();
        proof {
            assert(modes_view(self.document_modes@).take(i as int) =~= modes_view(
                self.document_modes@,
            ));
        }
        while i > 0
            invariant
                i <= self.document_modes@.len(),
                mode_for(modes_view(self.document_modes@), key@) == mode_for(
                    modes_view(self.document_modes@).take(i as int),
                    key@,
                ),
            decreases i,
        {
            let entry = &self.document_modes[i - 1];
            proof {
                let v = modes_view(self.document_modes@).take(i as int);
                assert(v.drop_last() =~= modes_view(self.document_modes@).take(i - 1));
                assert(v.last() == (entry.0@, entry.1));
            }
            if str_equals(entry.0.as_str(), key) {
                return Some(entry.1);
            }
            i = i - 1;
        }
        None
    }

    /// Remembers the mode of a document key, keeping at most
    /// `MAX_DOCUMENT_MODES` entries, the most recent ones.
    pub fn remember_document_mode(&mut self, key: &str, mode: DocumentModePreference)
        ensures
            modes_view(final(self).document_modes@) == remembered(
                modes_view(old(self).document_modes@),
                key@,
                mode,
            ),
            final(self).recovery_enabled == old(self).recovery_enabled,
    {
        let ghost old_view = modes_view(self.document_modes@);
        let mut kept: Vec<(String, DocumentModePreference)> = Vec::new();
        let mut i: usize = 0;
        while i < self.document_modes.len()
            invariant
                i <= self.document_modes@.len(),
                old_view == modes_view(self.document_modes@),
                modes_view(kept@) == without_key(old_view.take(i as int), key@),
            decreases self.document_modes@.len() - i,
        {
            let entry = &self.document_modes[i];
            let ghost before = kept@;
            proof {
                assert(old_view.take(i + 1).drop_last() =~= old_view.take(i as int));
                assert(old_view.take(i + 1).last() == (entry.0@, entry.1));
            }
            if !str_equals(entry.0.as_str(), key) {
                kept.push((entry.0.clone(), entry.1));
                proof {
                    assert(modes_view(kept@) =~= modes_view(before).push((entry.0@, entry.1)));
                }
            }
            i = i + 1;
        }
        proof {
            assert(old_view.take(self.document_modes@.len() as int) =~= old_view);
        }
        let ghost filtered = modes_view(kept@);
        kept.push((String::from_str(key), mode));
        proof {
            assert(modes_view(kept@) =~= filtered.push((key@, mode)));
        }
        if kept.len() > MAX_DOCUMENT_MODES {
            let excess = kept.len() - MAX_DOCUMENT_MODES;
            let mut recent: Vec<(String, DocumentModePreference)> = Vec::new();
            let mut j: usize = excess;
            while j < kept.len()
                invariant
                    excess <= j <= kept@.len(),
                    modes_view(recent@) == modes_view(kept@).subrange(excess as int, j as int),
                decreases kept@.len() - j,
            {
                let ghost before = recent@;
                recent.push((kept[j].0.clone(), kept[j].1));
                proof {
                    assert(modes_view(recent@) =~= modes_view(before).push((kept@[j as int].0@, kept@[j as int].1)));
                    assert(modes_view(kept@).subrange(excess as int, j + 1) =~= modes_view(kept@).subrange(excess as int, j as int).push(modes_view(kept@)[j as int]));
                }
                j = j + 1;
            }
            proof {
                assert(modes_view(kept@).subrange(excess as int, kept@.len() as int) =~= modes_view(kept@).skip(excess as int));
            }
            self.document_modes = recent;
        } else {
            self.document_modes = kept;
        }
    }
}

pub open spec fn is_digit(c: char) -> bool {
    '0' <= c && c <= '9'
}

pub open spec fn is_hex_digit(c: char) -> bool {
    is_digit(c) || ('a' <= c && c <= 'f') || ('A' <= c && c <= 'F')
}

pub open spec fn all_digits(s: Seq<char>) -> bool {
    forall|i: int| 0 <= i < s.len() ==> is_digit(#[trigger] s[i])
}

/// The number a run of decimal digits writes.
pub open spec fn digits_value(s: Seq<char>) -> nat
    decreases s.len(),
{
    if s.len() == 0 {
        0
    } else {
        digits_value(s.drop_last()) * 10 + ((s.last() as u32) - ('0' as u32)) as nat
    }
}

/// What `u32::from_str` reads: an optional `+`, then at least one decimal
/// digit and nothing else, of a value that fits.
pub open spec fn u32_of(s: Seq<char>) -> Option<u32> {
    let d = if s.len() > 0 && s[0] == '+' {
        s.drop_first()
    } else {
        s
    };
    if d.len() == 0 || !all_digits(d) || digits_value(d) > u32::MAX {
        None
    } else {
        Some(digits_value(d) as u32)
    }
}

proof fn lemma_digits_value_grows(s: Seq<char>, n: int)
    requires
        0 <= n <= s.len(),
        all_digits(s),
    ensures
        digits_value(s.take(n)) <= digits_value(s),
    decreases s.len() - n,
{
    if n < s.len() {
        lemma_digits_value_grows(s, n + 1);
        assert(s.take(n + 1).drop_last() =~= s.take(n));
    } else {
        assert(s.take(n) =~= s);
    }
}

/// Reads a decimal `u32` the way `str::parse::<u32>` does.
pub fn parse_u32(s: &str) -> (r: Option<u32>)
    ensures
        r == u32_of(s@),
{
    let chars = chars_of(s);
    let mut i: usize = 0;
    if chars.len() > 0 && chars[0] == '+' {
        i = 1;
    }
    let start = i;
    let ghost d = if s@.len() > 0 && s@[0] == '+' {
        s@.drop_first()
    } else {
        s@
    };
    proof {
        assert(d =~= s@.skip(start as int));
    }
    if start == chars.len() {
        return None;
    }
    let mut value: u32 = 0;
    while i < chars.len()
        invariant
            chars@ == s@,
            start <= i <= chars@.len(),
            d == s@.skip(start as int),
            d == (if s@.len() > 0 && s@[0] == '+' {
                s@.drop_first()
            } else {
                s@
            }),
            all_digits(s@.subrange(start as int, i as int)),
            value == digits_value(s@.subrange(start as int, i as int)),
        decreases chars@.len() - i,
    {
        let c = chars[i];
        proof {
            assert(s@.subrange(start as int, i + 1).drop_last() =~= s@.subrange(start as int, i as int));
        }
        if c < '0' || c > '9' {
            proof {
                assert(d[i - start] == c);
                assert(!is_digit(d[i - start]));
                assert(!all_digits(d));
            }
            return None;
        }
        let digit = (c as u32) - ('0' as u32);
        proof {
            let p = s@.subrange(start as int, i + 1);
            assert(p.last() == c);
            assert(digits_value(p) == value * 10 + digit);
        }
        let bigger = match value.checked_mul(10) {
            Some(v) => v,
            None => {
                proof {
                    assert(s@.subrange(start as int, i + 1) =~= d.take(i - start + 1));
                    if all_digits(d) {
                        lemma_digits_value_grows(d, i - start + 1);
                        assert(digits_value(d) > u32::MAX);
                    }
                }
                return None;
            },
        };
        value = match bigger.checked_add(digit) {
            Some(v) => v,
            None => {
                proof {
                    assert(s@.subrange(start as int, i + 1) =~= d.take(i - start + 1));
                    if all_digits(d) {
                        lemma_digits_value_grows(d, i - start + 1);
                        assert(digits_value(d) > u32::MAX);
                    }
                }
                return None;
            },
        };
        i = i + 1;
    }
    proof {
        assert(s@.subrange(start as int, chars@.len() as int) =~= d);
    }
    Some(value)
}

/// A document key: sixteen hexadecimal digits.
pub open spec fn is_key(k: Seq<char>) -> bool {
    k.len() == 16 && forall|i: int| 0 <= i < 16 ==> is_hex_digit(#[trigger] k[i])
}

fn looks_like_key(k: &str) -> (b: bool)
    ensures
        b == is_key(k@),
{
    let chars = chars_of(k);
    if chars.len() != 16 {
        return false;
    }
    let mut i: usize = 0;
    while i < 16
        invariant
            chars@ == k@,
            chars@.len() == 16,
            i <= 16,
            forall|j: int| 0 <= j < i ==> is_hex_digit(#[trigger] k@[j]),
        decreases 16 - i,
    {
        let c = chars[i];
        if !(('0' <= c && c <= '9') || ('a' <= c && c <= 'f') || ('A' <= c && c <= 'F')) {
            return false;
        }
        i = i + 1;
    }
    true
}

/// What reading the settings file has gathered so far: the version, the
/// recovery switch and the remembered modes.
pub type ParseState = (Option<u32>, Option<bool>, Seq<(Seq<char>, DocumentModePreference)>);

/// How one line changes what has been gathered. Lines are `key=value`;
/// unknown keys and malformed lines are ignored.
pub open spec fn read_line(state: ParseState, raw: Seq<char>) -> ParseState {
    let line = trim_ws(raw);
    match first_occurrence(line, "="@) {
        None => state,
        Some(k) => {
            let key = trim_ws(line.take(k));
            let value = line.skip(k + 1);
            if key == "version"@ {
                (u32_of(trim_ws(value)), state.1, state.2)
            } else if key == "recovery_enabled"@ {
                (
                    state.0,
                    if trim_ws(value) == "true"@ {
                        Some(true)
                    } else if trim_ws(value) == "false"@ {
                        Some(false)
                    } else {
                        None
                    },
                    state.2,
                )
            } else if key == "document_mode"@ {
                let v = trim_ws(value);
                match first_occurrence(v, ","@) {
                    None => state,
                    Some(j) => {
                        let hk = v.take(j);
                        let code = v.skip(j + 1);
                        if is_key(hk) && mode_of_code(code) is Some {
                            let all = without_key(state.2, hk).push(
                                (ascii_lowercase(hk), mode_of_code(code)->0),
                            );
                            (
                                state.0,
                                state.1,
                                if all.len() > MAX_DOCUMENT_MODES {
                                    all.drop_first()
                                } else {
                                    all
                                },
                            )
                        } else {
                            state
                        }
                    },
                }
            } else {
                state
            }
        },
    }
}

pub open spec fn read_lines(lines: Seq<Seq<char>>) -> ParseState
    decreases lines.len(),
{
    if lines.len() == 0 {
        (None, None, Seq::empty())
    } else {
        read_line(read_lines(lines.drop_last()), lines.last())
    }
}

/// The settings a file's text stands for: a known version is required,
/// modes are kept only from the current version, recovery defaults to on.
pub open spec fn settings_of(source: Seq<char>) -> (bool, Seq<(Seq<char>, DocumentModePreference)>) {
    let state = read_lines(lines_of(source));
    if state.0 != Some(1u32) && state.0 != Some(SETTINGS_VERSION) {
        (true, Seq::empty())
    } else {
        (
            match state.1 {
                Some(b) => b,
                None => true,
            },
            if state.0 == Some(SETTINGS_VERSION) {
                state.2
            } else {
                Seq::empty()
            },
        )
    }
}

impl Settings {
    pub open spec fn view(self) -> (bool, Seq<(Seq<char>, DocumentModePreference)>) {
        (self.recovery_enabled, modes_view(self.document_modes@))
    }

    /// Reads the settings text; whatever it cannot use is ignored.
    pub fn parse(source: &str) -> (s: Settings)
        ensures
            s.view() == settings_of(source@),
    {
        let all = lines(source);
        let mut version: Option<u32> = None;
        let mut recovery: Option<bool> = None;
        let mut modes: Vec<(String, DocumentModePreference)> = Vec::new();
        let mut i: usize = 0;
        while i < all.len()
            invariant
                i <= all@.len(),
                texts(all@) == lines_of(source@),
                read_lines(texts(all@).take(i as int)) == (version, recovery, modes_view(modes@)),
            decreases all@.len() - i,
        {
            proof {
                assert(texts(all@).take(i + 1).drop_last() =~= texts(all@).take(i as int));
                assert(texts(all@).take(i + 1).last() == all@[i as int]@);
            }
            read_setting_line(all[i].as_str(), &mut version, &mut recovery, &mut modes);
            i = i + 1;
        }
        proof {
            assert(texts(all@).take(all@.len() as int) =~= texts(all@));
        }
        let known = match version {
            Some(v) => v == 1 || v == SETTINGS_VERSION,
            None => false,
        };
        if !known {
            return Settings { recovery_enabled: true, document_modes: Vec::new() };
        }
        let recovery_enabled = match recovery {
            Some(b) => b,
            None => true,
        };
        let current = match version {
            Some(v) => v == SETTINGS_VERSION,
            None => false,
        };
        if current {
            Settings { recovery_enabled, document_modes: modes }
        } else {
            Settings { recovery_enabled, document_modes: Vec::new() }
        }
    }
}

fn split_once_at<'a>(s: &'a str, sep: &str) -> (r: Option<(&'a str, &'a str)>)
    requires
        sep@.len() == 1,
        utf8_len(sep@) == 1,
    ensures
        match first_occurrence(s@, sep@) {
            Some(k) => r matches Some((a, b)) && a@ == s@.take(k) && b@ == s@.skip(k + 1),
            None => r is None,
        },
{
    match find(s, sep) {
        Some(at) => {
            proof {
                lemma_split_at(s@, sep@);
            }
            let len = crate::strings::byte_len(s);
            Some((slice(s, 0, at), slice(s, at + 1, len)))
        },
        None => None,
    }
}

fn read_setting_line(
    raw: &str,
    version: &mut Option<u32>,
    recovery: &mut Option<bool>,
    modes: &mut Vec<(String, DocumentModePreference)>,
)
    ensures
        (*final(version), *final(recovery), modes_view(final(modes)@)) == read_line(
            (*old(version), *old(recovery), modes_view(old(modes)@)),
            raw@,
        ),
{
    proof {
        reveal_strlit("=");
        reveal_strlit(",");
        lemma_utf8_len_ascii("="@);
        lemma_utf8_len_ascii(","@);
    }
    let line = trim(raw);
    let (key, value) = match split_once_at(line, "=") {
        Some(kv) => kv,
        None => return,
    };
    let key = trim(key);
    if str_equals(key, "version") {
        *version = parse_u32(trim(value));
    } else if str_equals(key, "recovery_enabled") {
        let v = trim(value);
        *recovery = if str_equals(v, "true") {
            Some(true)
        } else if str_equals(v, "false") {
            Some(false)
        } else {
            None
        };
    } else if str_equals(key, "document_mode") {
        let v = trim(value);
        let (hk, code) = match split_once_at(v, ",") {
            Some(kc) => kc,
            None => return,
        };
        if !looks_like_key(hk) {
            return;
        }
        let mode = match DocumentModePreference::parse(code) {
            Some(m) => m,
            None => return,
        };
        let ghost old_view = modes_view(modes@);
        let mut kept: Vec<(String, DocumentModePreference)> = Vec::new();
        let mut i: usize = 0;
        while i < modes.len()
            invariant
                i <= modes@.len(),
                old_view == modes_view(modes@),
                modes_view(kept@) == without_key(old_view.take(i as int), hk@),
            decreases modes@.len() - i,
        {
            let entry = &modes[i];
            let ghost before = kept@;
            proof {
                assert(old_view.take(i + 1).drop_last() =~= old_view.take(i as int));
                assert(old_view.take(i + 1).last() == (entry.0@, entry.1));
            }
            if !str_equals(entry.0.as_str(), hk) {
                kept.push((entry.0.clone(), entry.1));
                proof {
                    assert(modes_view(kept@) =~= modes_view(before).push((entry.0@, entry.1)));
                }
            }
            i = i + 1;
        }
        proof {
            assert(old_view.take(modes@.len() as int) =~= old_view);
        }
        let ghost filtered = modes_view(kept@);
        kept.push((to_ascii_lowercase(hk), mode));
        proof {
            assert(modes_view(kept@) =~= filtered.push((ascii_lowercase(hk@), mode)));
        }
        if kept.len() > MAX_DOCUMENT_MODES {
            let ghost full = modes_view(kept@);
            kept.remove(0);
            proof {
                assert(modes_view(kept@) =~= full.drop_first());
            }
        }
        *modes = kept;
    }
}

/// The text the settings are stored as.
pub open spec fn modes_text(modes: Seq<(Seq<char>, DocumentModePreference)>) -> Seq<char>
    decreases modes.len(),
{
    if modes.len() == 0 {
        Seq::empty()
    } else {
        modes_text(modes.drop_last()) + "document_mode="@ + modes.last().0 + ","@ + mode_code(
            modes.last().1,
        ) + "\n"@
    }
}

pub open spec fn settings_text(recovery_enabled: bool, modes: Seq<(Seq<char>, DocumentModePreference)>) -> Seq<char> {
    "version=2\nrecovery_enabled="@ + (if recovery_enabled {
        "true"@
    } else {
        "false"@
    }) + "\n"@ + modes_text(modes)
}

impl Settings {
    /// The settings file's text: the version, the recovery switch and one
    /// line per remembered mode.
    pub fn render(&self) -> (t: String)
        ensures
            t@ == settings_text(self.recovery_enabled, modes_view(self.document_modes@)),
    {
        let mut text = String::from_str("version=2\nrecovery_enabled=");
        text.append(if self.recovery_enabled {
            "true"
        } else {
            "false"
        });
        text.append("\n");
        let ghost head = text@;
        proof {
            reveal_strlit("");
            assert(modes_view(self.document_modes@).take(0) =~= Seq::empty());
            assert(head + modes_text(Seq::empty()) =~= head);
        }
        let mut i: usize = 0;
        while i < self.document_modes.len()
            invariant
                i <= self.document_modes@.len(),
                text@ == head + modes_text(modes_view(self.document_modes@).take(i as int)),
            decreases self.document_modes@.len() - i,
        {
            let entry = &self.document_modes[i];
            text.append("document_mode=");
            text.append(entry.0.as_str());
            text.append(",");
            text.append(entry.1.code());
            text.append("\n");
            proof {
                let v = modes_view(self.document_modes@);
                assert(v.take(i + 1).drop_last() =~= v.take(i as int));
                assert(v.take(i + 1).last() == (entry.0@, entry.1));
            }
            i = i + 1;
        }
        proof {
            assert(modes_view(self.document_modes@).take(self.document_modes@.len() as int)
                =~= modes_view(self.document_modes@));
        }
        text
    }
}

/// Whether a settings file is worth reading: a regular file within the size
/// bound. Anything else falls back to the defaults.
pub fn accepts_settings_file(is_file: bool, byte_len: u64) -> (b: bool)
    ensures
        b == (is_file && byte_len <= MAX_SETTINGS_BYTES),
{
    is_file && byte_len <= MAX_SETTINGS_BYTES
}

/// FNV-1a, 64 bits, over a byte string: stable across versions and
/// platforms. It keeps the path out of the file in clear text; it is no
/// secret against whoever already controls the local profile.
pub open spec fn fnv1a(bytes: Seq<u8>) -> u64
    decreases bytes.len(),
{
    if bytes.len() == 0 {
        0xcbf29ce484222325u64
    } else {
        vstd::wrapping::u64_specs::wrapping_mul(
            fnv1a(bytes.drop_last()) ^ (bytes.last() as u64),
            0x100000001b3u64,
        )
    }
}

pub open spec fn hex_char(n: u64) -> char {
    if n < 10 {
        (('0' as u32) + (n as u32)) as char
    } else {
        (('a' as u32) + (n as u32) - 10) as char
    }
}

/// The first `n` of the sixteen lower-case hexadecimal digits of `h`.
pub open spec fn hex_digits(h: u64, n: nat) -> Seq<char>
    decreases n,
{
    if n == 0 {
        Seq::empty()
    } else {
        hex_digits(h, (n - 1) as nat).push(hex_char((h >> ((60 - 4 * (n - 1)) as u64)) & 0xfu64))
    }
}

/// The key under which a document's mode is remembered: the FNV-1a hash of
/// its path text, with `\` read as `/`, in sixteen hexadecimal digits.
pub open spec fn document_key_text(path: Seq<char>) -> Seq<char> {
    hex_digits(
        fnv1a(vstd::utf8::encode_utf8(crate::strings::replace_chars(path, '\\', '/'))),
        16,
    )
}

fn hex_char_text(n: u64) -> (r: &'static str)
    requires
        n < 16,
    ensures
        r@ == seq![hex_char(n)],
{
    proof {
        reveal_strlit("0");
        reveal_strlit("1");
        reveal_strlit("2");
        reveal_strlit("3");
        reveal_strlit("4");
        reveal_strlit("5");
        reveal_strlit("6");
        reveal_strlit("7");
        reveal_strlit("8");
        reveal_strlit("9");
        reveal_strlit("a");
        reveal_strlit("b");
        reveal_strlit("c");
        reveal_strlit("d");
        reveal_strlit("e");
        reveal_strlit("f");
    }
    match n {
        0 => "0",
        1 => "1",
        2 => "2",
        3 => "3",
        4 => "4",
        5 => "5",
        6 => "6",
        7 => "7",
        8 => "8",
        9 => "9",
        10 => "a",
        11 => "b",
        12 => "c",
        13 => "d",
        14 => "e",
        _ => "f",
    }
}

/// The key of a document from the text of its canonical path (on systems
/// whose paths ignore case, already lower-cased by the caller).
pub fn document_key_of(path: &str) -> (k: String)
    ensures
        k@ == document_key_text(path@),
{
    let normalized = crate::strings::replace_char(path, '\\', '/');
    let bytes = normalized.as_str().as_bytes();
    let mut hash: u64 = 0xcbf29ce484222325u64;
    let mut i: usize = 0;
    while i < bytes.len()
        invariant
            i <= bytes@.len(),
            hash == fnv1a(bytes@.take(i as int)),
        decreases bytes@.len() - i,
    {
        proof {
            assert(bytes@.take(i + 1).drop_last() =~= bytes@.take(i as int));
        }
        hash = (hash ^ (bytes[i] as u64)).wrapping_mul(0x100000001b3u64);
        i = i + 1;
    }
    proof {
        assert(bytes@.take(bytes@.len() as int) =~= bytes@);
    }
    let mut key = String::new();
    let mut n: u64 = 0;
    while n < 16
        invariant
            n <= 16,
            key@ == hex_digits(hash, n as nat),
        decreases 16 - n,
    {
        let shift: u64 = 60 - 4 * n;
        let nibble = (hash >> shift) & 0xfu64;
        assert(nibble < 16) by (bit_vector)
            requires
                nibble == (hash >> shift) & 0xfu64,
        ;
        key.append(hex_char_text(nibble));
        n = n + 1;
    }
    key
}

/// A mode just remembered for a document is the one read back for it.
pub proof fn lemma_remembered_mode_is_read_back(
    modes: Seq<(Seq<char>, DocumentModePreference)>,
    key: Seq<char>,
    mode: DocumentModePreference,
)
    ensures
        mode_for(remembered(modes, key, mode), key) == Some(mode),
        remembered(modes, key, mode).len() <= MAX_DOCUMENT_MODES,
        remembered(modes, key, mode).last() == (key, mode),
{
    let all = without_key(modes, key).push((key, mode));
    if all.len() > MAX_DOCUMENT_MODES {
        let kept = all.skip(all.len() - MAX_DOCUMENT_MODES);
        assert(kept.last() == all.last());
    }
}

/// Remembering a mode for one document leaves what is read back for any
/// other document as it was, unless that entry is the oldest and the list
/// is full.
pub proof fn lemma_remember_keeps_others(
    modes: Seq<(Seq<char>, DocumentModePreference)>,
    key: Seq<char>,
    mode: DocumentModePreference,
    other: Seq<char>,
)
    requires
        other != key,
        without_key(modes, key).len() < MAX_DOCUMENT_MODES,
    ensures
        mode_for(remembered(modes, key, mode), other) == mode_for(modes, other),
{
    lemma_mode_for_without(modes, key, other);
    let w = without_key(modes, key);
    assert(w.push((key, mode)).drop_last() =~= w);
}

proof fn lemma_mode_for_without(
    modes: Seq<(Seq<char>, DocumentModePreference)>,
    key: Seq<char>,
    other: Seq<char>,
)
    requires
        other != key,
    ensures
        mode_for(without_key(modes, key), other) == mode_for(modes, other),
    decreases modes.len(),
{
    if modes.len() > 0 {
        lemma_mode_for_without(modes.drop_last(), key, other);
        let w = without_key(modes.drop_last(), key);
        if modes.last().0 != key {
            assert(w.push(modes.last()).drop_last() =~= w);
        } else {
            assert(w + Seq::empty() =~= w);
        }
    }
}

/// The line a remembered mode is stored as.
pub open spec fn mode_line(e: (Seq<char>, DocumentModePreference)) -> Seq<char> {
    "document_mode="@ + e.0 + ","@ + mode_code(e.1)
}

pub open spec fn mode_lines(m: Seq<(Seq<char>, DocumentModePreference)>) -> Seq<Seq<char>>
    decreases m.len(),
{
    if m.len() == 0 {
        Seq::empty()
    } else {
        mode_lines(m.drop_last()).push(mode_line(m.last()))
    }
}

/// Settings that a file can hold: within the bound, each key sixteen
/// lower-case hexadecimal digits, no key twice.
pub open spec fn storable(modes: Seq<(Seq<char>, DocumentModePreference)>) -> bool {
    &&& modes.len() <= MAX_DOCUMENT_MODES
    &&& forall|i: int| 0 <= i < modes.len() ==> is_key(#[trigger] modes[i].0)
    &&& forall|i: int| 0 <= i < modes.len() ==> ascii_lowercase(#[trigger] modes[i].0) == modes[i].0
    &&& forall|i: int, j: int| 0 <= i < j < modes.len() ==> modes[i].0 != modes[j].0
}

proof fn lemma_code_facts(mode: DocumentModePreference)
    ensures
        mode_code(mode).len() == 1,
        !crate::strings::is_white_space(mode_code(mode)[0]),
        mode_code(mode)[0] != '\n',
        mode_code(mode)[0] != '\r',
        mode_code(mode)[0] != ',',
        mode_of_code(mode_code(mode)) == Some(mode),
{
    reveal_strlit("r");
    reveal_strlit("e");
    reveal_strlit("s");
    lemma_mode_code_round_trip(mode);
}

proof fn lemma_mode_line_facts(e: (Seq<char>, DocumentModePreference))
    requires
        is_key(e.0),
    ensures
        forall|j: int| 0 <= j < mode_line(e).len() ==> mode_line(e)[j] != '\n',
        mode_line(e).last() != '\r',
{
    reveal_strlit("document_mode=");
    reveal_strlit(",");
    lemma_code_facts(e.1);
    let l = mode_line(e);
    assert forall|j: int| 0 <= j < l.len() implies l[j] != '\n' by {
        if 14 <= j < 30 {
            assert(l[j] == e.0[j - 14]);
            assert(is_hex_digit(e.0[j - 14]));
        }
    }
}

proof fn lemma_modes_text_lines(m: Seq<(Seq<char>, DocumentModePreference)>)
    requires
        forall|i: int| 0 <= i < m.len() ==> is_key(#[trigger] m[i].0),
    ensures
        modes_text(m).len() == 0 || modes_text(m).last() == '\n',
        crate::workspace::lines_of(modes_text(m)) == mode_lines(m),
    decreases m.len(),
{
    reveal_strlit("\n");
    if m.len() == 0 {
        assert(crate::workspace::lines_of(Seq::<char>::empty()) =~= Seq::<Seq<char>>::empty());
    } else {
        let init = m.drop_last();
        assert forall|i: int| 0 <= i < init.len() implies is_key(#[trigger] init[i].0) by {
            assert(init[i] == m[i]);
        }
        lemma_modes_text_lines(init);
        assert(is_key(m[m.len() - 1].0));
        lemma_mode_line_facts(m.last());
        let line = mode_line(m.last());
        assert(modes_text(m) =~= modes_text(init) + (line + "\n"@));
        crate::workspace::lemma_lines_concat(modes_text(init), line + "\n"@);
        crate::workspace::lemma_lines_single(line);
    }
}

proof fn lemma_without_absent_key(m: Seq<(Seq<char>, DocumentModePreference)>, key: Seq<char>)
    requires
        forall|i: int| 0 <= i < m.len() ==> #[trigger] m[i].0 != key,
    ensures
        without_key(m, key) == m,
    decreases m.len(),
{
    if m.len() > 0 {
        lemma_without_absent_key(m.drop_last(), key);
        assert(m.drop_last().push(m.last()) =~= m);
    }
}

/// Reading back one stored mode line appends that entry.
proof fn lemma_read_mode_line(
    state: ParseState,
    e: (Seq<char>, DocumentModePreference),
)
    requires
        is_key(e.0),
        ascii_lowercase(e.0) == e.0,
        forall|i: int| 0 <= i < state.2.len() ==> #[trigger] state.2[i].0 != e.0,
        state.2.len() < MAX_DOCUMENT_MODES,
    ensures
        read_line(state, mode_line(e)) == (state.0, state.1, state.2.push(e)),
{
    reveal_strlit("document_mode=");
    reveal_strlit("document_mode");
    reveal_strlit("version");
    reveal_strlit("recovery_enabled");
    reveal_strlit("=");
    reveal_strlit(",");
    lemma_code_facts(e.1);
    let line = mode_line(e);
    assert(line.len() == 32);
    assert(line[0] == 'd');
    crate::strings::lemma_trim_unchanged(line);
    assert("="@ =~= seq!['=']);
    assert(","@ =~= seq![',']);
    assert forall|j: int| 0 <= j < 13 implies line[j] != '=' by {}
    assert(line[13] == '=');
    crate::strings::lemma_first_char_at(line, '=', 13);
    let key = line.take(13);
    assert(key =~= "document_mode"@);
    crate::strings::lemma_trim_unchanged(key);
    let value = line.skip(14);
    assert(value =~= e.0 + ","@ + mode_code(e.1));
    assert(is_hex_digit(e.0[0]));
    crate::strings::lemma_trim_unchanged(value);
    assert forall|j: int| 0 <= j < 16 implies value[j] != ',' by {
        assert(value[j] == e.0[j]);
        assert(is_hex_digit(e.0[j]));
    }
    crate::strings::lemma_first_char_at(value, ',', 16);
    assert(value.take(16) =~= e.0);
    assert(value.skip(17) =~= mode_code(e.1));
    lemma_without_absent_key(state.2, e.0);
}

proof fn lemma_read_mode_lines(
    pre: Seq<Seq<char>>,
    v: Option<u32>,
    r: Option<bool>,
    m: Seq<(Seq<char>, DocumentModePreference)>,
)
    requires
        read_lines(pre) == (v, r, Seq::<(Seq<char>, DocumentModePreference)>::empty()),
        storable(m),
    ensures
        read_lines(pre + mode_lines(m)) == (v, r, m),
    decreases m.len(),
{
    if m.len() == 0 {
        assert(pre + mode_lines(m) =~= pre);
        assert(m =~= Seq::<(Seq<char>, DocumentModePreference)>::empty());
    } else {
        let init = m.drop_last();
        assert(storable(init)) by {
            assert forall|i: int| 0 <= i < init.len() implies is_key(#[trigger] init[i].0) by {
                assert(init[i] == m[i]);
            }
            assert forall|i: int| 0 <= i < init.len() implies ascii_lowercase(
                #[trigger] init[i].0,
            ) == init[i].0 by {
                assert(init[i] == m[i]);
            }
        }
        lemma_read_mode_lines(pre, v, r, init);
        assert(pre + mode_lines(m) =~= (pre + mode_lines(init)).push(mode_line(m.last())));
        assert((pre + mode_lines(init)).push(mode_line(m.last())).drop_last() =~= pre
            + mode_lines(init));
        assert(is_key(m[m.len() - 1].0));
        assert(ascii_lowercase(m[m.len() - 1].0) == m[m.len() - 1].0);
        assert forall|i: int| 0 <= i < init.len() implies #[trigger] init[i].0 != m.last().0 by {
            assert(init[i] == m[i]);
        }
        lemma_read_mode_line((v, r, init), m.last());
        assert(init.push(m.last()) =~= m);
    }
}

/// Reading back the text the settings are stored as gives the same
/// settings, for any settings a file can hold.
pub proof fn lemma_settings_round_trip(
    recovery_enabled: bool,
    modes: Seq<(Seq<char>, DocumentModePreference)>,
)
    requires
        storable(modes),
    ensures
        settings_of(settings_text(recovery_enabled, modes)) == (recovery_enabled, modes),
{
    reveal_strlit("version=2\nrecovery_enabled=");
    reveal_strlit("version=2");
    reveal_strlit("version");
    reveal_strlit("recovery_enabled=");
    reveal_strlit("recovery_enabled");
    reveal_strlit("true");
    reveal_strlit("false");
    reveal_strlit("\n");
    reveal_strlit("=");
    reveal_strlit("2");
    assert("="@ =~= seq!['=']);
    let flag = if recovery_enabled {
        "true"@
    } else {
        "false"@
    };
    let v_line = "version=2"@;
    let r_line = "recovery_enabled="@ + flag;
    assert forall|i: int| 0 <= i < modes.len() implies is_key(#[trigger] modes[i].0) by {}
    lemma_modes_text_lines(modes);
    let text = settings_text(recovery_enabled, modes);
    assert(text =~= (v_line + "\n"@) + ((r_line + "\n"@) + modes_text(modes)));
    crate::workspace::lemma_lines_concat(v_line + "\n"@, (r_line + "\n"@) + modes_text(modes));
    crate::workspace::lemma_lines_concat(r_line + "\n"@, modes_text(modes));
    crate::workspace::lemma_lines_single(v_line);
    crate::workspace::lemma_lines_single(r_line);
    let pre = seq![v_line, r_line];
    assert(crate::workspace::lines_of(text) =~= pre + mode_lines(modes));
    // The version line.
    crate::strings::lemma_trim_unchanged(v_line);
    assert forall|j: int| 0 <= j < 7 implies v_line[j] != '=' by {}
    crate::strings::lemma_first_char_at(v_line, '=', 7);
    assert(v_line.take(7) =~= "version"@);
    crate::strings::lemma_trim_unchanged("version"@);
    assert(v_line.skip(8) =~= "2"@);
    crate::strings::lemma_trim_unchanged("2"@);
    assert("2"@ =~= seq!['2']);
    assert(digits_value("2"@) == 2) by {
        assert("2"@.drop_last() =~= Seq::<char>::empty());
        assert("2"@.last() == '2');
        assert(('2' as u32) - ('0' as u32) == 2);
        assert(digits_value(Seq::<char>::empty()) == 0);
    }
    assert(all_digits("2"@));
    assert(u32_of("2"@) == Some(2u32));
    let empty = Seq::<(Seq<char>, DocumentModePreference)>::empty();
    assert(seq![v_line].drop_last() =~= Seq::<Seq<char>>::empty());
    assert(read_lines(Seq::<Seq<char>>::empty()) == (None::<u32>, None::<bool>, empty));
    assert(trim_ws(v_line) == v_line);
    assert(first_occurrence(v_line, "="@) == Some(7int));
    assert(trim_ws(v_line.take(7)) == "version"@);
    assert(trim_ws(v_line.skip(8)) == "2"@);
    assert(read_line((None::<u32>, None::<bool>, empty), v_line) == (Some(2u32), None::<bool>, empty));
    assert(read_lines(seq![v_line]) == (Some(2u32), None::<bool>, empty));
    // The recovery line.
    crate::strings::lemma_trim_unchanged(r_line);
    assert forall|j: int| 0 <= j < 16 implies r_line[j] != '=' by {}
    crate::strings::lemma_first_char_at(r_line, '=', 16);
    assert(r_line.take(16) =~= "recovery_enabled"@);
    crate::strings::lemma_trim_unchanged("recovery_enabled"@);
    assert(r_line.skip(17) =~= flag);
    crate::strings::lemma_trim_unchanged(flag);
    assert("recovery_enabled"@ != "version"@);
    assert("true"@ != "false"@);
    assert(pre.drop_last() =~= seq![v_line]);
    assert(read_lines(pre) == (Some(2u32), Some(recovery_enabled), empty));
    lemma_read_mode_lines(pre, Some(2u32), Some(recovery_enabled), modes);
}

proof fn lemma_hex_digits(h: u64, n: nat)
    ensures
        hex_digits(h, n).len() == n,
        forall|i: int| 0 <= i < n ==> is_hex_digit(#[trigger] hex_digits(h, n)[i]),
        forall|i: int| 0 <= i < n ==> ('0' <= #[trigger] hex_digits(h, n)[i] <= '9') || ('a'
            <= hex_digits(h, n)[i] <= 'f'),
    decreases n,
{
    if n > 0 {
        lemma_hex_digits(h, (n - 1) as nat);
        let shift = (60 - 4 * (n - 1)) as u64;
        let nib = (h >> shift) & 0xfu64;
        assert(nib < 16) by (bit_vector)
            requires
                nib == (h >> shift) & 0xfu64,
        ;
        let d = hex_digits(h, n);
        assert forall|i: int| 0 <= i < n implies ('0' <= #[trigger] d[i] <= '9') || ('a' <= d[i]
            <= 'f') by {
            if i < n - 1 {
                assert(d[i] == hex_digits(h, (n - 1) as nat)[i]);
            }
        }
    }
}

/// Every document key is sixteen lower-case hexadecimal digits, a key that
/// the settings file can hold.
pub proof fn lemma_document_key_is_storable(path: Seq<char>)
    ensures
        is_key(document_key_text(path)),
        ascii_lowercase(document_key_text(path)) == document_key_text(path),
{
    let k = document_key_text(path);
    let h = fnv1a(vstd::utf8::encode_utf8(crate::strings::replace_chars(path, '\\', '/')));
    lemma_hex_digits(h, 16);
    assert(ascii_lowercase(k) =~= k) by {
        assert forall|i: int| 0 <= i < k.len() implies ascii_lowercase(k)[i] == k[i] by {
            assert(('0' <= k[i] <= '9') || ('a' <= k[i] <= 'f'));
        }
    }
}

proof fn lemma_without_key_entries(m: Seq<(Seq<char>, DocumentModePreference)>, key: Seq<char>)
    ensures
        forall|i: int|
            0 <= i < without_key(m, key).len() ==> (#[trigger] without_key(m, key)[i]).0 != key
                && exists|j: int| 0 <= j < m.len() && m[j] == without_key(m, key)[i],
        forall|i: int, l: int|
            #![trigger without_key(m, key)[i], without_key(m, key)[l]]
            0 <= i < l < without_key(m, key).len() ==> exists|a: int, b: int|
                #![trigger m[a], m[b]]
                0 <= a < b < m.len() && m[a] == without_key(m, key)[i] && m[b] == without_key(
                    m,
                    key,
                )[l],
    decreases m.len(),
{
    if m.len() > 0 {
        let init = m.drop_last();
        lemma_without_key_entries(init, key);
        let w0 = without_key(init, key);
        let w = without_key(m, key);
        assert forall|i: int| 0 <= i < w.len() implies (#[trigger] w[i]).0 != key && exists|j: int|
            0 <= j < m.len() && m[j] == w[i] by {
            if i < w0.len() {
                assert(w[i] == w0[i]);
                let j = choose|j: int| 0 <= j < init.len() && init[j] == w0[i];
                assert(m[j] == init[j]);
            } else {
                assert(w[i] == m.last());
                assert(m[m.len() - 1] == w[i]);
            }
        }
        assert forall|i: int, l: int| #![trigger w[i], w[l]] 0 <= i < l < w.len() implies exists|a: int, b: int|
            #![trigger m[a], m[b]]
            0 <= a < b < m.len() && m[a] == w[i] && m[b] == w[l] by {
            if l < w0.len() {
                assert(w[i] == w0[i] && w[l] == w0[l]);
                let (a, b) = choose|a: int, b: int|
                    0 <= a < b < init.len() && init[a] == w0[i] && init[b] == w0[l];
                assert(m[a] == init[a] && m[b] == init[b]);
            } else {
                assert(w[l] == m.last());
                assert(w[i] == w0[i]);
                let a = choose|a: int| 0 <= a < init.len() && init[a] == w0[i];
                assert(m[a] == init[a]);
                assert(m[m.len() - 1] == w[l]);
            }
        }
    }
}

/// Remembering a mode under a document key keeps the settings storable.
pub proof fn lemma_remember_keeps_storable(
    modes: Seq<(Seq<char>, DocumentModePreference)>,
    path: Seq<char>,
    mode: DocumentModePreference,
)
    requires
        storable(modes),
    ensures
        storable(remembered(modes, document_key_text(path), mode)),
{
    let key = document_key_text(path);
    lemma_document_key_is_storable(path);
    lemma_without_key_entries(modes, key);
    let w = without_key(modes, key);
    let all = w.push((key, mode));
    assert forall|i: int| 0 <= i < all.len() implies is_key(#[trigger] all[i].0) && ascii_lowercase(
        all[i].0,
    ) == all[i].0 by {
        if i < w.len() {
            assert(all[i] == w[i]);
            let j = choose|j: int| 0 <= j < modes.len() && modes[j] == w[i];
            assert(is_key(modes[j].0));
            assert(ascii_lowercase(modes[j].0) == modes[j].0);
        }
    }
    assert forall|i: int, l: int| 0 <= i < l < all.len() implies all[i].0 != all[l].0 by {
        if l < w.len() {
            assert(all[i] == w[i] && all[l] == w[l]);
            let (a, b) = choose|a: int, b: int|
                0 <= a < b < modes.len() && modes[a] == w[i] && modes[b] == w[l];
        } else {
            assert(all[i] == w[i]);
            assert(w[i].0 != key);
        }
    }
    if all.len() > MAX_DOCUMENT_MODES {
        let kept = all.skip(all.len() - MAX_DOCUMENT_MODES);
        let off = all.len() - MAX_DOCUMENT_MODES;
        assert forall|i: int| 0 <= i < kept.len() implies is_key(#[trigger] kept[i].0)
            && ascii_lowercase(kept[i].0) == kept[i].0 by {
            assert(kept[i] == all[i + off]);
        }
        assert forall|i: int, l: int| 0 <= i < l < kept.len() implies kept[i].0 != kept[l].0 by {
            assert(kept[i] == all[i + off] && kept[l] == all[l + off]);
        }
    }
}

} // verus!
