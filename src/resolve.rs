//! Resolution of a dotted path against a table.
//!
//! Nested tables take precedence: the path's first segment is looked up, and
//! where it names a table the rest of the path is resolved inside it. Where it
//! does not, the first two segments joined by a dot are taken as one literal
//! key, then the first three, and so on. So a literal key `b.c` inside table
//! `a` is reached by `a.b.c`, while a key written `a.b.c` inside table `a`
//! lies under `a` and is reached by `a.a.b.c`; `a.b.c` does not reach it.
use vstd::prelude::*;
use crate::path::{join_dots, seg_views, split_dots, split_path};
use crate::value::{lemma_table_model, opt_view, table_get, table_view, find_entry, Tree, Value};

verus! {

/// The value that `segs` reaches from table `es`.
pub open spec fn resolve(es: Seq<(Seq<char>, Tree)>, segs: Seq<Seq<char>>) -> Option<Tree>
    decreases segs.len(), segs.len() + 1,
{
    resolve_from(es, segs, 1)
}

/// Resolution where the first `k` segments, joined by dots, form the key
/// looked up next in `es`.
pub open spec fn resolve_from(es: Seq<(Seq<char>, Tree)>, segs: Seq<Seq<char>>, k: int) -> Option<
    Tree,
>
    decreases segs.len(), segs.len() + 1 - k,
{
    if k < 1 || k > segs.len() {
        None
    } else {
        let found = table_get(es, join_dots(segs.take(k)));
        if k == segs.len() {
            found
        } else {
            match found {
                Some(Tree::Table(sub)) => resolve(sub, segs.skip(k)),
                _ => resolve_from(es, segs, k + 1),
            }
        }
    }
}

/// The value that the dotted path `path` names in table `es`.
pub open spec fn lookup(es: Seq<(Seq<char>, Tree)>, path: Seq<char>) -> Option<Tree> {
    resolve(es, split_dots(path))
}

proof fn lemma_resolve_from_concat(
    es: Seq<(Seq<char>, Tree)>,
    s1: Seq<Seq<char>>,
    s2: Seq<Seq<char>>,
    k: int,
    t: Seq<(Seq<char>, Tree)>,
)
    requires
        1 <= k <= s1.len(),
        s2.len() >= 1,
        resolve_from(es, s1, k) == Some(Tree::Table(t)),
    ensures
        resolve_from(es, s1 + s2, k) == resolve(t, s2),
    decreases s1.len(), s1.len() + 1 - k,
{
    let s = s1 + s2;
    assert(s.take(k) =~= s1.take(k));
    if k == s1.len() {
        assert(s.skip(k) =~= s2);
    } else {
        match table_get(es, join_dots(s1.take(k))) {
            Some(Tree::Table(sub)) => {
                assert(s.skip(k) =~= s1.skip(k) + s2);
                assert(resolve(sub, s1.skip(k)) == resolve_from(sub, s1.skip(k), 1));
                assert(resolve(sub, s.skip(k)) == resolve_from(sub, s.skip(k), 1));
                lemma_resolve_from_concat(sub, s1.skip(k), s2, 1, t);
            },
            _ => {
                lemma_resolve_from_concat(es, s1, s2, k + 1, t);
            },
        }
    }
}

/// Where `p` names a table `t`, a path `q` resolved inside `t` reaches what
/// `p.q` reaches from the top.
pub proof fn lemma_lookup_in_table(es: Seq<(Seq<char>, Tree)>, p: Seq<char>, q: Seq<char>, t: Seq<(Seq<char>, Tree)>)
    requires
        lookup(es, p) == Some(Tree::Table(t)),
    ensures
        lookup(t, q) == lookup(es, p + seq!['.'] + q),
{
    crate::path::lemma_split_concat(p, q);
    crate::path::lemma_split_nonempty(q);
    let s1 = split_dots(p);
    let s2 = split_dots(q);
    assert(resolve(es, s1) == resolve_from(es, s1, 1));
    assert(resolve(es, s1 + s2) == resolve_from(es, s1 + s2, 1));
    lemma_resolve_from_concat(es, s1, s2, 1, t);
}

/// A path without a dot names a top-level key.
pub proof fn lemma_lookup_plain(es: Seq<(Seq<char>, Tree)>, key: Seq<char>)
    requires
        forall|i: int| 0 <= i < key.len() ==> key[i] != '.',
    ensures
        lookup(es, key) == table_get(es, key),
{
    crate::path::lemma_split_plain(key);
    let segs = seq![key];
    assert(segs.take(1) =~= segs);
    assert(resolve(es, segs) == resolve_from(es, segs, 1));
}

/// Resolves the segments of `segs` from index `start` on.
fn resolve_segments<'a>(es: &'a Vec<(String, Value)>, segs: &Vec<String>, start: usize) -> (r:
    Option<&'a Value>)
    requires
        start < segs@.len(),
    ensures
        opt_view(r) == resolve(table_view(es@), seg_views(segs@).skip(start as int)),
    decreases segs@.len() - start,
{
    let ghost all = seg_views(segs@).skip(start as int);
    let ghost t = table_view(es@);
    let n = segs.len();
    let mut key = segs[start].clone();
    let mut k: usize = start + 1;
    assert(all.take(1) =~= seq![all[0]]);
    while k <= n
        invariant
            n == segs@.len(),
            start < k <= segs@.len(),
            all == seg_views(segs@).skip(start as int),
            t == table_view(es@),
            key@ == join_dots(all.take(k - start)),
            resolve(t, all) == resolve_from(t, all, k - start),
        decreases segs@.len() - k,
    {
        let found = find_entry(es, &key);
        if k == n {
            return found;
        }
        match found {
            Some(Value::Table(sub)) => {
                proof {
                    lemma_table_model(*sub);
                    assert(all.skip(k - start) =~= seg_views(segs@).skip(k as int));
                }
                return resolve_segments(sub, segs, k);
            },
            _ => {},
        }
        proof {
            reveal_strlit(".");
            assert(all.take(k - start + 1).drop_last() =~= all.take(k - start));
        }
        key.append(".");
        key.append(segs[k].as_str());
        k = k + 1;
    }
    None
}

/// The value that the dotted path `path` names in table `es`.
pub fn lookup_path<'a>(es: &'a Vec<(String, Value)>, path: &str) -> (r: Option<&'a Value>)
    ensures
        opt_view(r) == lookup(table_view(es@), path@),
{
    let segs = split_path(path);
    proof {
        crate::path::lemma_split_nonempty(path@);
        assert(seg_views(segs@).skip(0) =~= seg_views(segs@));
    }
    resolve_segments(es, &segs, 0)
}

} // verus!
