//! The order in which an index lists its notes: by relative path, component
//! by component.
use vstd::prelude::*;
use crate::strings::chars_of;
use crate::workspace::{WorkspaceIndex, WorkspaceNote};

verus! {

/// `x` sorts before `y` in the path order: the separator comes before every
/// other character, the others by code point, so that paths without empty
/// components compare component by component, as `std::path::Path` orders them.
pub open spec fn path_char_before(x: char, y: char) -> bool {
    x != y && (x == '/' || (y != '/' && x < y))
}

/// `a` comes no later than `b` in the path order.
pub open spec fn path_le(a: Seq<char>, b: Seq<char>) -> bool
    decreases a.len(),
{
    if a.len() == 0 {
        true
    } else if b.len() == 0 {
        false
    } else if a[0] != b[0] {
        path_char_before(a[0], b[0])
    } else {
        path_le(a.drop_first(), b.drop_first())
    }
}

/// The notes are listed in path order.
pub open spec fn notes_in_path_order(v: Seq<WorkspaceNote>) -> bool {
    forall|i: int, j: int| 0 <= i < j < v.len() ==> path_le(v[i].relative_path@, v[j].relative_path@)
}

pub proof fn lemma_path_le_total(a: Seq<char>, b: Seq<char>)
    ensures
        path_le(a, b) || path_le(b, a),
    decreases a.len(),
{
    if a.len() > 0 && b.len() > 0 && a[0] == b[0] {
        lemma_path_le_total(a.drop_first(), b.drop_first());
    }
}

pub proof fn lemma_path_le_transitive(a: Seq<char>, b: Seq<char>, c: Seq<char>)
    requires
        path_le(a, b),
        path_le(b, c),
    ensures
        path_le(a, c),
    decreases a.len(),
{
    if a.len() > 0 && b.len() > 0 && c.len() > 0 && a[0] == b[0] && b[0] == c[0] {
        lemma_path_le_transitive(a.drop_first(), b.drop_first(), c.drop_first());
    }
}

/// Whether `a` comes no later than `b` in the path order.
pub fn path_precedes(a: &str, b: &str) -> (r: bool)
    ensures
        r == path_le(a@, b@),
{
    let x = chars_of(a);
    let y = chars_of(b);
    let mut k: usize = 0;
    proof {
        assert(a@.skip(0) =~= a@);
        assert(b@.skip(0) =~= b@);
    }
    while k < x.len() && k < y.len()
        invariant
            x@ == a@,
            y@ == b@,
            k <= x@.len(),
            k <= y@.len(),
            path_le(a@, b@) == path_le(a@.skip(k as int), b@.skip(k as int)),
        decreases x@.len() - k,
    {
        let p = x[k];
        let q = y[k];
        proof {
            assert(a@.skip(k as int)[0] == p);
            assert(b@.skip(k as int)[0] == q);
            assert(a@.skip(k as int).drop_first() =~= a@.skip(k + 1));
            assert(b@.skip(k as int).drop_first() =~= b@.skip(k + 1));
        }
        if p != q {
            if p == '/' {
                return true;
            }
            if q == '/' {
                return false;
            }
            return p < q;
        }
        k = k + 1;
    }
    proof {
        if k == x@.len() {
            assert(a@.skip(k as int).len() == 0);
        } else {
            assert(b@.skip(k as int).len() == 0);
        }
    }
    k == x.len()
}

impl WorkspaceIndex {
    /// Lists the notes in path order; the notes themselves, and the rest of
    /// the index, stay as they were.
    pub fn sort_notes(&mut self)
        ensures
            final(self).notes@.to_multiset() == old(self).notes@.to_multiset(),
            notes_in_path_order(final(self).notes@),
            final(self).skipped == old(self).skipped,
            final(self).truncated == old(self).truncated,
            final(self).indexed_content_bytes == old(self).indexed_content_bytes,
            final(self).content_truncated == old(self).content_truncated,
            final(self).scanned_bytes == old(self).scanned_bytes,
            final(self).scan_truncated == old(self).scan_truncated,
            final(self).cancelled == old(self).cancelled,
            final(self).change_marks == old(self).change_marks,
            final(self).change_marks_truncated == old(self).change_marks_truncated,
    {
        broadcast use vstd::seq_lib::group_to_multiset_ensures;

        let mut rest: Vec<WorkspaceNote> = Vec::new();
        std::mem::swap(&mut rest, &mut self.notes);
        let ghost all = rest@.to_multiset();
        let mut sorted: Vec<WorkspaceNote> = Vec::new();
        proof {
            assert(sorted@.to_multiset() =~= vstd::multiset::Multiset::<WorkspaceNote>::empty());
            assert(sorted@.to_multiset().add(rest@.to_multiset()) =~= all);
        }
        while rest.len() > 0
            invariant
                sorted@.to_multiset().add(rest@.to_multiset()) == all,
                notes_in_path_order(sorted@),
                forall|i: int, j: int|
                    0 <= i < sorted@.len() && 0 <= j < rest@.len() ==> path_le(
                        #[trigger] sorted@[i].relative_path@,
                        #[trigger] rest@[j].relative_path@,
                    ),
            decreases rest@.len(),
        {
            let mut m: usize = 0;
            let mut k: usize = 1;
            proof {
                lemma_path_le_total(rest@[0].relative_path@, rest@[0].relative_path@);
            }
            while k < rest.len()
                invariant
                    0 <= m < rest@.len(),
                    m < k <= rest@.len() || (k == 1 && rest@.len() == 0),
                    forall|j: int| 0 <= j < k ==> path_le(rest@[m as int].relative_path@, #[trigger] rest@[j].relative_path@),
                decreases rest@.len() - k,
            {
                proof {
                    assert(path_le(rest@[m as int].relative_path@, rest@[m as int].relative_path@)) by {
                        lemma_path_le_total(rest@[m as int].relative_path@, rest@[m as int].relative_path@);
                    }
                }
                if !path_precedes(rest[m].relative_path.as_str(), rest[k].relative_path.as_str()) {
                    proof {
                        let a = rest@[m as int].relative_path@;
                        let c = rest@[k as int].relative_path@;
                        lemma_path_le_total(a, c);
                        assert forall|j: int| 0 <= j < k + 1 implies path_le(c, #[trigger] rest@[j].relative_path@) by {
                            if j < k {
                                lemma_path_le_transitive(c, a, rest@[j].relative_path@);
                            } else {
                                lemma_path_le_total(c, c);
                            }
                        }
                    }
                    m = k;
                }
                k = k + 1;
            }
            proof {
                lemma_path_le_total(rest@[m as int].relative_path@, rest@[m as int].relative_path@);
            }
            let ghost before_rest = rest@;
            let ghost before_sorted = sorted@;
            let note = rest.remove(m);
            sorted.push(note);
            proof {
                before_rest.to_multiset_ensures();
                before_sorted.to_multiset_ensures();
                assert(before_rest.remove(m as int).to_multiset() =~= before_rest.to_multiset().remove(before_rest[m as int]));
                assert(before_rest.to_multiset().count(before_rest[m as int]) > 0) by {
                    assert(before_rest.contains(before_rest[m as int]));
                }
                assert(sorted@.to_multiset().add(rest@.to_multiset()) =~= all);
                assert forall|i: int, j: int| 0 <= i < j < sorted@.len() implies path_le(
                    sorted@[i].relative_path@,
                    sorted@[j].relative_path@,
                ) by {
                    if j == sorted@.len() - 1 {
                        assert(sorted@[j] == before_rest[m as int]);
                        assert(path_le(before_sorted[i].relative_path@, before_rest[m as int].relative_path@));
                    }
                }
                assert forall|i: int, j: int|
                    0 <= i < sorted@.len() && 0 <= j < rest@.len() implies path_le(
                        #[trigger] sorted@[i].relative_path@,
                        #[trigger] rest@[j].relative_path@,
                    ) by {
                    let jj = if j < m { j } else { j + 1 };
                    assert(rest@[j] == before_rest[jj]);
                    if i < before_sorted.len() {
                        assert(path_le(before_sorted[i].relative_path@, before_rest[jj].relative_path@));
                    } else {
                        assert(path_le(before_rest[m as int].relative_path@, before_rest[jj].relative_path@));
                    }
                }
            }
        }
        proof {
            assert(rest@.to_multiset() =~= vstd::multiset::Multiset::<WorkspaceNote>::empty());
            assert(sorted@.to_multiset() =~= all);
        }
        self.notes = sorted;
    }
}

} // verus!
