//! The guard's authorization laws, stated over the model that the
//! method contracts use: the grant sequence
//! ([`crate::guard::ScopeGuard::grants`]), the working directory
//! ([`crate::guard::ScopeGuard::base_segs`]) and normalized paths as
//! segment sequences.

use vstd::prelude::*;
use crate::guard::{allowed_by, entry_matches, join_segs, segs_prefix_of, ScopeGuard};
use crate::norm::{apply_segment, has_nul, norm_spec, resolve_chars, valid_segment, wf_segs};

verus! {

/// A path no grant names is denied. If the query does not normalize,
/// or normalizes to a path that no grant's path equals and that no
/// recursive grant's path leads as a segment run, then the guard does
/// not authorize it: the guard fails closed.
pub proof fn lemma_ungranted_denied(g: ScopeGuard, query: Seq<char>)
    requires
        match norm_spec(g.base_segs(), query) {
            Some(q) => forall|i: int|
                0 <= i < g.grants().len() ==> ((#[trigger] g.grants()[i]).0 != q && (
                g.grants()[i].1 ==> !segs_prefix_of(g.grants()[i].0, q))),
            None => true,
        },
    ensures
        !g.path_allowed(query),
{
}

/// A recursive grant covers its directory and every descendant. When a
/// grant of `grant` with the recursive flag has been appended — as
/// `allow_directory` ensures, turning the guard from `g0` into `g1` —
/// every query that normalizes to the grant's path or to a descendant
/// of it is authorized.
pub proof fn lemma_recursive_grant_allows(
    g0: ScopeGuard,
    g1: ScopeGuard,
    grant: Seq<char>,
    query: Seq<char>,
)
    requires
        norm_spec(g0.base_segs(), grant) is Some,
        g1.base_segs() == g0.base_segs(),
        g1.grants() == g0.grants().push((norm_spec(g0.base_segs(), grant)->Some_0, true)),
        norm_spec(g0.base_segs(), query) is Some,
        segs_prefix_of(
            norm_spec(g0.base_segs(), grant)->Some_0,
            norm_spec(g0.base_segs(), query)->Some_0,
        ),
    ensures
        g1.path_allowed(query),
{
    let d = norm_spec(g0.base_segs(), grant)->Some_0;
    let q = norm_spec(g0.base_segs(), query)->Some_0;
    let n = g0.grants().len() as int;
    assert(g1.grants()[n] == (d, true));
    assert(entry_matches(g1.grants()[n], q));
}

/// A non-recursive grant covers exactly its directory. When a grant of
/// `grant` without the recursive flag has been appended — as
/// `allow_directory` ensures, turning the guard from `g0` into `g1` —
/// a query that normalizes to the grant's path is authorized, and any
/// other query — every strict descendant of the grant among them — is
/// authorized exactly when `g0` already authorized it.
pub proof fn lemma_nonrecursive_grant_exact(
    g0: ScopeGuard,
    g1: ScopeGuard,
    grant: Seq<char>,
    query: Seq<char>,
)
    requires
        norm_spec(g0.base_segs(), grant) is Some,
        g1.base_segs() == g0.base_segs(),
        g1.grants() == g0.grants().push((norm_spec(g0.base_segs(), grant)->Some_0, false)),
    ensures
        ({
            let d = norm_spec(g0.base_segs(), grant)->Some_0;
            match norm_spec(g0.base_segs(), query) {
                Some(q) => if q == d {
                    g1.path_allowed(query)
                } else {
                    g1.path_allowed(query) == g0.path_allowed(query)
                },
                None => !g1.path_allowed(query),
            }
        }),
{
    let d = norm_spec(g0.base_segs(), grant)->Some_0;
    let n = g0.grants().len() as int;
    assert(g1.grants()[n] == (d, false));
    match norm_spec(g0.base_segs(), query) {
        Some(q) => {
            if q == d {
                assert(entry_matches(g1.grants()[n], q));
            } else {
                if allowed_by(g0.grants(), q) {
                    let i = choose|i: int|
                        0 <= i < g0.grants().len() && entry_matches(
                            #[trigger] g0.grants()[i],
                            q,
                        );
                    assert(g1.grants()[i] == g0.grants()[i]);
                    assert(entry_matches(g1.grants()[i], q));
                }
                if allowed_by(g1.grants(), q) {
                    let i = choose|i: int|
                        0 <= i < g1.grants().len() && entry_matches(
                            #[trigger] g1.grants()[i],
                            q,
                        );
                    assert(i < g0.grants().len());
                    assert(entry_matches(g0.grants()[i], q));
                }
            }
        },
        None => {},
    }
}

/// The allowed set only widens over the guard's lifetime: a new grant
/// never revokes access that the earlier grants gave.
pub proof fn lemma_grants_only_widen(
    entries: Seq<(Seq<Seq<char>>, bool)>,
    e: (Seq<Seq<char>>, bool),
    q: Seq<Seq<char>>,
)
    requires
        allowed_by(entries, q),
    ensures
        allowed_by(entries.push(e), q),
{
    let i = choose|i: int|
        0 <= i < entries.len() && entry_matches(#[trigger] entries[i], q);
    assert(entries.push(e)[i] == entries[i]);
    assert(entry_matches(entries.push(e)[i], q));
}

/// Descendant matching is segment-aware, not string-aware: a grant path
/// `d` leads a query path `q` exactly when `q` is at least as long and
/// repeats every whole segment of `d`, in order. A query whose first
/// segment merely begins with the characters of `d`'s segment does not
/// match.
pub proof fn lemma_prefix_is_segment_wise(d: Seq<Seq<char>>, q: Seq<Seq<char>>)
    ensures
        segs_prefix_of(d, q) <==> (d.len() <= q.len() && forall|j: int|
            0 <= j < d.len() ==> q[j] == d[j]),
{
    if d.len() <= q.len() {
        if q.take(d.len() as int) == d {
            assert forall|j: int| 0 <= j < d.len() implies q[j] == d[j] by {
                assert(q.take(d.len() as int)[j] == q[j]);
            }
        }
        if forall|j: int| 0 <= j < d.len() ==> q[j] == d[j] {
            assert(q.take(d.len() as int) =~= d);
        }
    }
}

/// Grants are listed completely, in the order they were made: after two
/// successive grants the earlier entries are untouched and the two new
/// ones stand last, in order, with their flags.
pub proof fn lemma_two_grants_listed(
    entries: Seq<(Seq<Seq<char>>, bool)>,
    e1: (Seq<Seq<char>>, bool),
    e2: (Seq<Seq<char>>, bool),
)
    ensures
        entries.push(e1).push(e2).len() == entries.len() + 2,
        entries.push(e1).push(e2)[entries.len() as int] == e1,
        entries.push(e1).push(e2)[entries.len() as int + 1] == e2,
        forall|i: int|
            0 <= i < entries.len() ==> entries.push(e1).push(e2)[i] == entries[i],
{
}

/// `join_segs` unrolled from the front, for induction along the order
/// in which normalization reads characters.
spec fn join_front(segs: Seq<Seq<char>>) -> Seq<char>
    decreases segs.len(),
{
    if segs.len() == 0 {
        Seq::empty()
    } else {
        seq!['/'] + segs.first() + join_front(segs.drop_first())
    }
}

proof fn lemma_join_front_push(segs: Seq<Seq<char>>, x: Seq<char>)
    ensures
        join_front(segs.push(x)) == join_front(segs) + seq!['/'] + x,
    decreases segs.len(),
{
    if segs.len() == 0 {
        assert(segs.push(x).first() == x);
        assert(segs.push(x).drop_first() =~= Seq::<Seq<char>>::empty());
        assert(join_front(Seq::<Seq<char>>::empty()) == Seq::<char>::empty());
        assert(join_front(segs.push(x)) == seq!['/'] + x + Seq::<char>::empty());
        assert(seq!['/'] + x + Seq::<char>::empty() =~= seq!['/'] + x);
        assert(join_front(segs) == Seq::<char>::empty());
        assert(Seq::<char>::empty() + seq!['/'] + x =~= seq!['/'] + x);
    } else {
        assert(segs.push(x).first() == segs.first());
        assert(segs.push(x).drop_first() =~= segs.drop_first().push(x));
        lemma_join_front_push(segs.drop_first(), x);
        assert(seq!['/'] + segs.first() + (join_front(segs.drop_first()) + seq!['/'] + x)
            =~= (seq!['/'] + segs.first() + join_front(segs.drop_first())) + seq!['/'] + x);
    }
}

proof fn lemma_join_equiv(segs: Seq<Seq<char>>)
    ensures
        join_segs(segs) == join_front(segs),
    decreases segs.len(),
{
    if segs.len() == 0 {
    } else {
        lemma_join_equiv(segs.drop_last());
        lemma_join_front_push(segs.drop_last(), segs.last());
        assert(segs.drop_last().push(segs.last()) =~= segs);
    }
}

proof fn lemma_wf_drop_first(segs: Seq<Seq<char>>)
    requires
        wf_segs(segs),
        segs.len() > 0,
    ensures
        wf_segs(segs.drop_first()),
{
    assert forall|i: int| 0 <= i < segs.drop_first().len() implies valid_segment(
        #[trigger] segs.drop_first()[i],
    ) by {
        assert(segs.drop_first()[i] == segs[i + 1]);
        assert(valid_segment(segs[i + 1]));
    }
}

proof fn lemma_join_front_shape(segs: Seq<Seq<char>>)
    requires
        wf_segs(segs),
    ensures
        !has_nul(join_front(segs)),
        join_front(segs).len() == 0 <==> segs.len() == 0,
        segs.len() > 0 ==> join_front(segs)[0] == '/',
    decreases segs.len(),
{
    if segs.len() > 0 {
        lemma_wf_drop_first(segs);
        lemma_join_front_shape(segs.drop_first());
        let s1 = segs.first();
        assert(valid_segment(s1));
        let rest = join_front(segs.drop_first());
        let s = seq!['/'] + s1 + rest;
        assert(!has_nul(s)) by {
            if has_nul(s) {
                let i = choose|i: int| 0 <= i < s.len() && s[i] == '\0';
                if i == 0 {
                    assert(s[0] == '/');
                } else if i < 1 + s1.len() {
                    assert(s[i] == s1[i - 1]);
                } else {
                    assert(s[i] == rest[i - 1 - s1.len()]);
                    assert(has_nul(rest));
                }
            }
        }
        assert(s[0] == '/');
    }
}

/// Processing the characters of a separator-free run extends the
/// segment being read and resolves nothing.
proof fn lemma_resolve_nosep(acc: Seq<Seq<char>>, cur: Seq<char>, s: Seq<char>, t: Seq<char>)
    requires
        forall|i: int| 0 <= i < s.len() ==> s[i] != '/',
    ensures
        resolve_chars(acc, cur, s + t) == resolve_chars(acc, cur + s, t),
    decreases s.len(),
{
    if s.len() == 0 {
        assert(s + t =~= t);
        assert(cur + s =~= cur);
    } else {
        let st = s + t;
        assert(st[0] == s[0]);
        assert(st.drop_first() =~= s.drop_first() + t);
        lemma_resolve_nosep(acc, cur.push(s[0]), s.drop_first(), t);
        assert(cur.push(s[0]) + s.drop_first() =~= cur + s);
    }
}

/// Resolving the front-joined form of already-valid segments appends
/// them, whatever was accumulated before.
proof fn lemma_resolve_join_front(acc: Seq<Seq<char>>, cur: Seq<char>, segs: Seq<Seq<char>>)
    requires
        wf_segs(segs),
    ensures
        resolve_chars(acc, cur, join_front(segs)) == apply_segment(acc, cur) + segs,
    decreases segs.len(),
{
    if segs.len() == 0 {
        assert(apply_segment(acc, cur) + segs =~= apply_segment(acc, cur));
    } else {
        let s1 = segs.first();
        assert(valid_segment(s1));
        let rest = segs.drop_first();
        lemma_wf_drop_first(segs);
        let s = join_front(segs);
        assert(s == seq!['/'] + s1 + join_front(rest));
        assert(s[0] == '/');
        assert(s.drop_first() =~= s1 + join_front(rest));
        lemma_resolve_nosep(apply_segment(acc, cur), Seq::empty(), s1, join_front(rest));
        assert(Seq::<char>::empty() + s1 =~= s1);
        lemma_resolve_join_front(apply_segment(acc, cur), s1, rest);
        assert(apply_segment(apply_segment(acc, cur), s1) == apply_segment(acc, cur).push(
            s1,
        ));
        assert(apply_segment(acc, cur).push(s1) + rest =~= apply_segment(acc, cur) + segs);
    }
}

/// The audit listing is faithful: normalizing the textual form of a
/// grant's path — what `path_string` returns — gives back exactly the
/// grant's segments, against any working directory.
pub proof fn lemma_path_string_round_trip(base: Seq<Seq<char>>, segs: Seq<Seq<char>>)
    requires
        wf_segs(segs),
    ensures
        norm_spec(
            base,
            if segs.len() == 0 {
                seq!['/']
            } else {
                join_segs(segs)
            },
        ) == Some(segs),
{
    if segs.len() == 0 {
        let s = seq!['/'];
        assert(!has_nul(s)) by {
            if has_nul(s) {
                let i = choose|i: int| 0 <= i < s.len() && s[i] == '\0';
                assert(s[0] == '/');
            }
        }
        assert(s[0] == '/');
        assert(s.drop_first() =~= Seq::<char>::empty());
        assert(resolve_chars(Seq::empty(), Seq::empty(), s) == segs) by {
            let e_acc = Seq::<Seq<char>>::empty();
            let e_cur = Seq::<char>::empty();
            assert(resolve_chars(e_acc, e_cur, s) == resolve_chars(
                apply_segment(e_acc, e_cur),
                Seq::empty(),
                s.drop_first(),
            ));
            assert(apply_segment(e_acc, e_cur) == e_acc);
            assert(resolve_chars(e_acc, e_cur, Seq::<char>::empty()) == apply_segment(
                e_acc,
                e_cur,
            ));
            assert(e_acc =~= segs);
        }
    } else {
        lemma_join_equiv(segs);
        lemma_join_front_shape(segs);
        let s = join_front(segs);
        lemma_resolve_join_front(Seq::empty(), Seq::empty(), segs);
        assert(apply_segment(Seq::<Seq<char>>::empty(), Seq::<char>::empty()) + segs
            =~= segs);
    }
}

} // verus!
