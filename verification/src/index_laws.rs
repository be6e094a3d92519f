//! Laws of the workspace index: what a search finds, what a note is titled,
//! how a wikilink is read and how it resolves.
use vstd::prelude::*;
use crate::strings::{
    contains_seq, first_occurrence, is_white_space, lemma_first_char_at, lemma_trim_end_ws,
    lemma_trim_start_ws, lemma_trim_unchanged, trim_end_ws, trim_start_ws, trim_ws,
    unicode_lowercase,
};
use crate::workspace::{
    declares_path, file_stem_of, heading_views, link_of, note_key_of, note_matches, refs_are,
    search_indices, stem_has_key, stem_matches, title_of, wiki_ambiguous, wiki_target, Heading,
    WikiResolution, WorkspaceNote,
};

verus! {

/// The notes a search with lower-cased query `q` returns: `i` is among the
/// indices it lists as soon as note `i` matches.
proof fn lemma_search_indices_has(notes: Seq<WorkspaceNote>, q: Seq<char>, n: nat, i: int)
    requires
        0 <= i < n,
        n <= notes.len(),
        note_matches(notes[i], q),
    ensures
        search_indices(notes, q, n).contains(i),
    decreases n,
{
    let prev = search_indices(notes, q, (n - 1) as nat);
    let all = search_indices(notes, q, n);
    if i == n - 1 {
        assert(all == prev + seq![i]);
        assert(all[all.len() - 1] == i);
    } else {
        lemma_search_indices_has(notes, q, (n - 1) as nat, i);
        let k = choose|k: int| 0 <= k < prev.len() && prev[k] == i;
        assert(all[k] == prev[k]);
    }
}

/// Every index a search lists is of a note that matches.
proof fn lemma_search_indices_match(notes: Seq<WorkspaceNote>, q: Seq<char>, n: nat, k: int)
    requires
        n <= notes.len(),
        0 <= k < search_indices(notes, q, n).len(),
    ensures
        0 <= search_indices(notes, q, n)[k] < n,
        note_matches(notes[search_indices(notes, q, n)[k]], q),
    decreases n,
{
    let prev = search_indices(notes, q, (n - 1) as nat);
    if k < prev.len() {
        lemma_search_indices_match(notes, q, (n - 1) as nat, k);
    }
}

/// Search is case-insensitive on every field it looks at, the note's text
/// included: with a non-empty query, a note is returned exactly when its
/// title, path, one of its headings or its search text, lower-cased, holds
/// the trimmed, lower-cased query. `v` is any list that `search` may return.
pub proof fn lemma_search_is_case_insensitive(
    notes: Seq<WorkspaceNote>,
    query: Seq<char>,
    v: Seq<&WorkspaceNote>,
)
    requires
        unicode_lowercase(trim_ws(query)).len() > 0,
        refs_are(v, notes, search_indices(notes, unicode_lowercase(trim_ws(query)), notes.len())),
    ensures
        forall|i: int|
            0 <= i < notes.len() && (contains_seq(
                unicode_lowercase(notes[i].search_text@),
                unicode_lowercase(trim_ws(query)),
            ) || contains_seq(unicode_lowercase(notes[i].title@), unicode_lowercase(trim_ws(query)))
                || contains_seq(
                unicode_lowercase(notes[i].relative_path@),
                unicode_lowercase(trim_ws(query)),
            )) ==> exists|k: int| 0 <= k < v.len() && *v[k] == #[trigger] notes[i],
        forall|i: int, h: int|
            0 <= i < notes.len() && 0 <= h < notes[i].headings@.len() && contains_seq(
                unicode_lowercase(#[trigger] notes[i].headings@[h].text@),
                unicode_lowercase(trim_ws(query)),
            ) ==> exists|k: int| 0 <= k < v.len() && *v[k] == notes[i],
        forall|k: int|
            0 <= k < v.len() ==> {
                let q = unicode_lowercase(trim_ws(query));
                let note = *#[trigger] v[k];
                ||| contains_seq(unicode_lowercase(note.title@), q)
                ||| contains_seq(unicode_lowercase(note.relative_path@), q)
                ||| exists|h: int|
                    0 <= h < note.headings@.len() && contains_seq(
                        unicode_lowercase(#[trigger] note.headings@[h].text@),
                        q,
                    )
                ||| contains_seq(unicode_lowercase(note.search_text@), q)
            },
{
    let q = unicode_lowercase(trim_ws(query));
    let idx = search_indices(notes, q, notes.len());
    assert forall|i: int|
        0 <= i < notes.len() && (contains_seq(unicode_lowercase(notes[i].search_text@), q)
            || contains_seq(unicode_lowercase(notes[i].title@), q) || contains_seq(
            unicode_lowercase(notes[i].relative_path@),
            q,
        )) implies exists|k: int| 0 <= k < v.len() && *v[k] == #[trigger] notes[i] by {
        lemma_search_indices_has(notes, q, notes.len(), i);
        let k = choose|k: int| 0 <= k < idx.len() && idx[k] == i;
        assert(*v[k] == notes[idx[k]]);
    }
    assert forall|i: int, h: int|
        0 <= i < notes.len() && 0 <= h < notes[i].headings@.len() && contains_seq(
            unicode_lowercase(#[trigger] notes[i].headings@[h].text@),
            q,
        ) implies exists|k: int| 0 <= k < v.len() && *v[k] == notes[i] by {
        assert(note_matches(notes[i], q));
        lemma_search_indices_has(notes, q, notes.len(), i);
        let k = choose|k: int| 0 <= k < idx.len() && idx[k] == i;
        assert(*v[k] == notes[idx[k]]);
    }
    assert forall|k: int| 0 <= k < v.len() implies {
        let note = *#[trigger] v[k];
        ||| contains_seq(unicode_lowercase(note.title@), q)
        ||| contains_seq(unicode_lowercase(note.relative_path@), q)
        ||| exists|h: int|
            0 <= h < note.headings@.len() && contains_seq(
                unicode_lowercase(#[trigger] note.headings@[h].text@),
                q,
            )
        ||| contains_seq(unicode_lowercase(note.search_text@), q)
    } by {
        lemma_search_indices_match(notes, q, notes.len(), k);
        assert(*v[k] == notes[idx[k]]);
    }
}

/// A note is titled by its first heading: whatever title `title_of` gives a
/// note whose headings are `headings`, it is the text of the first one when
/// there is any.
pub proof fn lemma_title_is_first_heading(path: Seq<char>, headings: Seq<Heading>, title: Seq<char>)
    requires
        title == title_of(path, heading_views(headings)),
    ensures
        headings.len() > 0 ==> title == headings[0].text@,
        headings.len() == 0 ==> (file_stem_of(path) matches Some(stem) ==> title == stem),
{
    if headings.len() > 0 {
        assert(heading_views(headings)[0] == headings[0].view());
    }
}

/// A text that is its own trim and not empty neither starts nor ends with
/// white space.
proof fn lemma_trimmed_ends(s: Seq<char>)
    requires
        s.len() > 0,
        trim_ws(s) == s,
    ensures
        !is_white_space(s[0]),
        !is_white_space(s.last()),
{
    let u = trim_start_ws(s);
    lemma_trim_start_ws(s);
    lemma_trim_end_ws(u);
    assert(u.len() == s.len());
    assert(u =~= s);
    assert(trim_end_ws(s) == s);
}

/// No character of `s` is `c`.
pub open spec fn free_of(s: Seq<char>, c: char) -> bool {
    forall|j: int| 0 <= j < s.len() ==> s[j] != c
}

/// Heading and alias of a wikilink are read independently: `[[n#h|a]]`,
/// with each part non-empty, already trimmed and free of `|` and `#`, names
/// note `n`, heading `h` and alias `a`.
#[verifier::spinoff_prover]
#[verifier::rlimit(40)]
pub proof fn lemma_link_heading_and_alias(n: Seq<char>, h: Seq<char>, a: Seq<char>)
    requires
        n.len() > 0,
        h.len() > 0,
        a.len() > 0,
        trim_ws(n) == n,
        trim_ws(h) == h,
        trim_ws(a) == a,
        free_of(n, '|') && free_of(n, '#'),
        free_of(h, '|') && free_of(h, '#'),
        free_of(a, '|') && free_of(a, '#'),
    ensures
        link_of(n + "#"@ + h + "|"@ + a) == Some((n, Some(a), Some(h))),
{
    reveal_strlit("#");
    reveal_strlit("|");
    assert("#"@ =~= seq!['#']);
    assert("|"@ =~= seq!['|']);
    let target = n + seq!['#'] + h;
    let raw = target + seq!['|'] + a;
    assert(n + "#"@ + h + "|"@ + a =~= raw);
    let k = target.len() as int;
    assert forall|j: int| 0 <= j < k implies raw[j] != '|' by {
        if j < n.len() {
            assert(raw[j] == n[j]);
        } else if j == n.len() {
            assert(raw[j] == '#');
        } else {
            assert(raw[j] == h[j - n.len() - 1]);
        }
    }
    assert(raw[k] == '|');
    lemma_first_char_at(raw, '|', k);
    assert(raw.take(k) =~= target);
    assert(raw.skip(k + 1) =~= a);
    lemma_trimmed_ends(n);
    lemma_trimmed_ends(h);
    assert(target[0] == n[0]);
    assert(target.last() == h.last());
    lemma_trim_unchanged(target);
    assert forall|j: int| 0 <= j < n.len() implies target[j] != '#' by {
        assert(target[j] == n[j]);
    }
    assert(target[n.len() as int] == '#');
    lemma_first_char_at(target, '#', n.len() as int);
    assert(target.take(n.len() as int) =~= n);
    assert(target.skip(n.len() as int + 1) =~= h);
}

/// Which notes have a file stem whose key is `key`: exactly `i`, where `i`
/// is the only one.
proof fn lemma_single_stem(notes: Seq<WorkspaceNote>, key: Seq<char>, n: nat, i: int)
    requires
        n <= notes.len(),
        0 <= i < notes.len(),
        stem_has_key(notes[i].relative_path@, key),
        forall|j: int| 0 <= j < notes.len() && j != i ==> !stem_has_key(#[trigger] notes[j].relative_path@, key),
    ensures
        stem_matches(notes, key, n) == (if i < n {
            seq![i]
        } else {
            Seq::<int>::empty()
        }),
    decreases n,
{
    if n > 0 {
        lemma_single_stem(notes, key, (n - 1) as nat, i);
        if i < n - 1 {
            assert(!stem_has_key(notes[n - 1].relative_path@, key));
        }
        assert(stem_matches(notes, key, n) =~= (if i < n {
            seq![i]
        } else {
            Seq::<int>::empty()
        }));
    }
}

/// A wikilink that names no path resolves by the file stem, compared by its
/// normalised key (trimmed, lower-cased, without `.md`) and not as written:
/// when exactly one note's stem has the target's key, `resolve_wikilink`
/// (whose possible results `r` are those its contract admits) finds that
/// note.
pub proof fn lemma_unique_stem_resolves<'a>(
    notes: Seq<WorkspaceNote>,
    target: Seq<char>,
    i: int,
    r: WikiResolution<'a>,
)
    requires
        0 <= i < notes.len(),
        note_key_of(target).len() > 0,
        !declares_path(target),
        file_stem_of(notes[i].relative_path@) matches Some(stem) && note_key_of(stem) == note_key_of(
            target,
        ),
        forall|j: int|
            0 <= j < notes.len() && j != i ==> !(file_stem_of(#[trigger] notes[j].relative_path@) matches Some(
                s,
            ) && note_key_of(s) == note_key_of(target)),
        match r {
            WikiResolution::Found(n) => wiki_target(notes, target) matches Some(x) && 0 <= x
                < notes.len() && *n == notes[x],
            WikiResolution::Missing => wiki_target(notes, target) is None && !wiki_ambiguous(
                notes,
                target,
            ),
            WikiResolution::Ambiguous => wiki_target(notes, target) is None && wiki_ambiguous(
                notes,
                target,
            ),
        },
    ensures
        wiki_target(notes, target) == Some(i),
        r matches WikiResolution::Found(n) && *n == notes[i],
{
    let key = note_key_of(target);
    assert forall|j: int| 0 <= j < notes.len() && j != i implies !stem_has_key(
        #[trigger] notes[j].relative_path@,
        key,
    ) by {}
    lemma_single_stem(notes, key, notes.len(), i);
}

} // verus!
