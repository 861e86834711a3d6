//! Path normalization.
//!
//! A path string is turned into a sequence of segments by splitting on
//! `/`. Empty segments and `.` are dropped, `..` removes the segment
//! before it (at the root it is a no-op), and every other run of
//! characters becomes one segment. A relative path (one that does not
//! start with `/`) is resolved against a base directory, itself given as
//! segments. The empty string and strings holding a NUL character cannot
//! be normalized.
//!
//! Normalization is purely lexical: symlinks are left unresolved, and
//! the filesystem is never consulted.

use vstd::prelude::*;

verus! {

/// A single normalized path segment: non-empty, free of separators and
/// NUL, and not one of the special segments `.` and `..`.
pub open spec fn valid_segment(s: Seq<char>) -> bool {
    &&& s.len() > 0
    &&& s != seq!['.']
    &&& s != seq!['.', '.']
    &&& forall|i: int| 0 <= i < s.len() ==> s[i] != '/' && s[i] != '\0'
}

/// All segments of a normalized path are valid.
pub open spec fn wf_segs(segs: Seq<Seq<char>>) -> bool {
    forall|i: int| 0 <= i < segs.len() ==> valid_segment(#[trigger] segs[i])
}

/// Resolve one raw segment against the segments accumulated so far:
/// empty segments and `.` are dropped, `..` removes the last accumulated
/// segment (a no-op at the root), anything else is appended.
pub open spec fn apply_segment(acc: Seq<Seq<char>>, cur: Seq<char>) -> Seq<Seq<char>> {
    if cur.len() == 0 || cur == seq!['.'] {
        acc
    } else if cur == seq!['.', '.'] {
        if acc.len() == 0 {
            acc
        } else {
            acc.drop_last()
        }
    } else {
        acc.push(cur)
    }
}

/// Fold the characters of `s` over the resolution state: `acc` holds the
/// segments resolved so far and `cur` the characters of the raw segment
/// being read.
pub open spec fn resolve_chars(acc: Seq<Seq<char>>, cur: Seq<char>, s: Seq<char>) -> Seq<
    Seq<char>,
>
    decreases s.len(),
{
    if s.len() == 0 {
        apply_segment(acc, cur)
    } else if s[0] == '/' {
        resolve_chars(apply_segment(acc, cur), Seq::empty(), s.drop_first())
    } else {
        resolve_chars(acc, cur.push(s[0]), s.drop_first())
    }
}

pub open spec fn has_nul(s: Seq<char>) -> bool {
    exists|i: int| 0 <= i < s.len() && s[i] == '\0'
}

/// Normalization of a path string against an absolute base directory
/// given as segments: `None` when the string is empty or holds a NUL
/// character, otherwise the resolved segment sequence. An absolute path
/// ignores the base.
pub open spec fn norm_spec(base: Seq<Seq<char>>, s: Seq<char>) -> Option<Seq<Seq<char>>> {
    if s.len() == 0 || has_nul(s) {
        None
    } else if s[0] == '/' {
        Some(resolve_chars(Seq::empty(), Seq::empty(), s))
    } else {
        Some(resolve_chars(base, Seq::empty(), s))
    }
}

/// Normalization of a path string that must be absolute, used for the
/// working directory a guard is created with.
pub open spec fn norm_abs(s: Seq<char>) -> Option<Seq<Seq<char>>> {
    if s.len() > 0 && s[0] == '/' {
        norm_spec(Seq::empty(), s)
    } else {
        None
    }
}

proof fn lemma_apply_segment_wf(acc: Seq<Seq<char>>, cur: Seq<char>)
    requires
        wf_segs(acc),
        forall|i: int| 0 <= i < cur.len() ==> cur[i] != '/' && cur[i] != '\0',
    ensures
        wf_segs(apply_segment(acc, cur)),
{
    if cur.len() == 0 || cur == seq!['.'] {
    } else if cur == seq!['.', '.'] {
    } else {
        assert(valid_segment(cur));
        assert forall|i: int| 0 <= i < acc.push(cur).len() implies valid_segment(
            #[trigger] acc.push(cur)[i],
        ) by {
            if i < acc.len() {
                assert(valid_segment(acc[i]));
            }
        }
    }
}

proof fn lemma_resolve_chars_wf(acc: Seq<Seq<char>>, cur: Seq<char>, s: Seq<char>)
    requires
        wf_segs(acc),
        forall|i: int| 0 <= i < cur.len() ==> cur[i] != '/' && cur[i] != '\0',
        !has_nul(s),
    ensures
        wf_segs(resolve_chars(acc, cur, s)),
    decreases s.len(),
{
    if s.len() == 0 {
        lemma_apply_segment_wf(acc, cur);
    } else {
        assert(s[0] != '\0');
        assert(!has_nul(s.drop_first())) by {
            if has_nul(s.drop_first()) {
                let i = choose|i: int|
                    0 <= i < s.drop_first().len() && s.drop_first()[i] == '\0';
                assert(s[i + 1] == '\0');
            }
        }
        if s[0] == '/' {
            lemma_apply_segment_wf(acc, cur);
            lemma_resolve_chars_wf(apply_segment(acc, cur), Seq::empty(), s.drop_first());
        } else {
            lemma_resolve_chars_wf(acc, cur.push(s[0]), s.drop_first());
        }
    }
}

/// Normalization of any string against a well-formed base yields
/// well-formed segments.
pub proof fn lemma_norm_wf(base: Seq<Seq<char>>, s: Seq<char>)
    requires
        wf_segs(base),
        norm_spec(base, s) is Some,
    ensures
        wf_segs(norm_spec(base, s)->Some_0),
{
    if s[0] == '/' {
        lemma_resolve_chars_wf(Seq::empty(), Seq::empty(), s);
    } else {
        lemma_resolve_chars_wf(base, Seq::empty(), s);
    }
}

/// Turns `piece`, one raw segment of a path, into its effect on the
/// segments resolved so far.
fn apply_piece(segs: &mut Vec<String>, piece: &str)
    ensures
        final(segs).deep_view() == apply_segment(old(segs).deep_view(), piece@),
{
    let n: usize = piece.unicode_len();
    if n == 0 {
    } else if n == 1 && piece.get_char(0) == '.' {
        proof {
            assert(piece@ =~= seq!['.']);
        }
    } else if n == 2 && piece.get_char(0) == '.' && piece.get_char(1) == '.' {
        proof {
            assert(piece@ =~= seq!['.', '.']);
        }
        if segs.len() > 0 {
            let _ = segs.pop();
            proof {
                assert(segs.deep_view() =~= old(segs).deep_view().drop_last());
            }
        }
    } else {
        proof {
            assert(piece@ != seq!['.']) by {
                if piece@ == seq!['.'] {
                    assert(piece@.len() == 1);
                    assert(piece@[0] == '.');
                }
            }
            assert(piece@ != seq!['.', '.']) by {
                if piece@ == seq!['.', '.'] {
                    assert(piece@.len() == 2);
                    assert(piece@[0] == '.');
                    assert(piece@[1] == '.');
                }
            }
        }
        let owned: String = piece.to_owned();
        segs.push(owned);
        proof {
            assert(segs.deep_view() =~= old(segs).deep_view().push(piece@));
        }
    }
}

/// Normalizes `path` against the base directory `base` (given as
/// segments): splits on `/`, drops empty segments and `.`, resolves `..`,
/// and prepends the base when the path is relative. Returns `None`
/// exactly when the string cannot be normalized (it is empty or holds a
/// NUL character).
pub fn normalize(base: &Vec<String>, path: &str) -> (r: Option<Vec<String>>)
    ensures
        match norm_spec(base.deep_view(), path@) {
            Some(segs) => r matches Some(v) && v.deep_view() == segs,
            None => r is None,
        },
{
    let n: usize = path.unicode_len();
    if n == 0 {
        return None;
    }
    let mut i: usize = 0;
    while i < n
        invariant
            i <= n,
            n == path@.len(),
            forall|j: int| 0 <= j < i ==> path@[j] != '\0',
        decreases n - i,
    {
        if path.get_char(i) == '\0' {
            proof {
                assert(has_nul(path@));
            }
            return None;
        }
        i += 1;
    }
    proof {
        assert(!has_nul(path@));
    }
    let first = path.get_char(0);
    let ghost acc0: Seq<Seq<char>> = if first == '/' {
        Seq::empty()
    } else {
        base.deep_view()
    };
    let mut segs: Vec<String> = Vec::new();
    if first != '/' {
        let mut k: usize = 0;
        while k < base.len()
            invariant
                k <= base.len(),
                segs@.len() == k,
                forall|j: int| 0 <= j < k ==> segs@[j]@ == base@[j]@,
            decreases base.len() - k,
        {
            let s: String = base[k].clone();
            segs.push(s);
            k += 1;
        }
        proof {
            assert(segs.deep_view() =~= base.deep_view());
        }
    }
    proof {
        assert(segs.deep_view() =~= acc0);
        assert(path@.subrange(0, 0) =~= Seq::<char>::empty());
        assert(path@.subrange(0, n as int) =~= path@);
    }
    let mut start: usize = 0;
    let mut i2: usize = 0;
    while i2 < n
        invariant
            start <= i2 <= n,
            n == path@.len(),
            !has_nul(path@),
            forall|j: int| start <= j < i2 ==> path@[j] != '/',
            resolve_chars(acc0, Seq::empty(), path@) == resolve_chars(
                segs.deep_view(),
                path@.subrange(start as int, i2 as int),
                path@.subrange(i2 as int, n as int),
            ),
        decreases n - i2,
    {
        let ghost cur = path@.subrange(start as int, i2 as int);
        let ghost rest = path@.subrange(i2 as int, n as int);
        let c = path.get_char(i2);
        proof {
            assert(rest[0] == path@[i2 as int]);
            assert(rest.drop_first() =~= path@.subrange(i2 + 1, n as int));
        }
        if c == '/' {
            let piece = path.substring_char(start, i2);
            proof {
                assert(piece@ == cur);
            }
            apply_piece(&mut segs, piece);
            start = i2 + 1;
            proof {
                assert(path@.subrange(start as int, i2 + 1) =~= Seq::<char>::empty());
            }
        } else {
            proof {
                assert(path@.subrange(start as int, i2 + 1) =~= cur.push(path@[i2 as int]));
            }
        }
        i2 += 1;
    }
    let piece = path.substring_char(start, n);
    proof {
        assert(piece@ == path@.subrange(start as int, n as int));
        assert(path@.subrange(n as int, n as int) =~= Seq::<char>::empty());
    }
    apply_piece(&mut segs, piece);
    Some(segs)
}

} // verus!
