//! Dotted paths: a key string split on `.` into segments, and segments
//! joined back into a literal key.
use vstd::prelude::*;

verus! {

/// The segments of `s` between its dots, in order; a string without a dot
/// is one segment, and two adjacent dots enclose an empty one.
pub open spec fn split_dots(s: Seq<char>) -> Seq<Seq<char>>
    decreases s.len(),
{
    if s.len() == 0 {
        seq![Seq::empty()]
    } else {
        let prev = split_dots(s.drop_last());
        if s.last() == '.' {
            prev.push(Seq::empty())
        } else {
            prev.update(prev.len() - 1, prev.last().push(s.last()))
        }
    }
}

/// The segments written one after another with a dot between two of them.
pub open spec fn join_dots(segs: Seq<Seq<char>>) -> Seq<char>
    decreases segs.len(),
{
    if segs.len() == 0 {
        Seq::empty()
    } else if segs.len() == 1 {
        segs[0]
    } else {
        join_dots(segs.drop_last()) + seq!['.'] + segs.last()
    }
}

pub open spec fn seg_views(segs: Seq<String>) -> Seq<Seq<char>> {
    segs.map_values(|s: String| s@)
}

pub proof fn lemma_split_nonempty(s: Seq<char>)
    ensures
        split_dots(s).len() >= 1,
    decreases s.len(),
{
    if s.len() > 0 {
        lemma_split_nonempty(s.drop_last());
    }
}

/// Splitting `p` joined to `q` by a dot gives the segments of `p` followed
/// by those of `q`.
pub proof fn lemma_split_concat(p: Seq<char>, q: Seq<char>)
    ensures
        split_dots(p + seq!['.'] + q) == split_dots(p) + split_dots(q),
    decreases q.len(),
{
    lemma_split_nonempty(p);
    if q.len() == 0 {
        assert((p + seq!['.'] + q).drop_last() =~= p);
        assert(split_dots(p) + split_dots(q) =~= split_dots(p).push(Seq::empty()));
    } else {
        let s = p + seq!['.'] + q;
        assert(s.drop_last() =~= p + seq!['.'] + q.drop_last());
        lemma_split_concat(p, q.drop_last());
        lemma_split_nonempty(q.drop_last());
        let a = split_dots(p);
        let b = split_dots(q.drop_last());
        if q.last() == '.' {
            assert(split_dots(s) =~= (a + b).push(Seq::empty()));
            assert((a + b).push(Seq::empty()) =~= a + b.push(Seq::empty()));
        } else {
            assert((a + b).update((a + b).len() - 1, (a + b).last().push(q.last())) =~= a + b.update(
                b.len() - 1,
                b.last().push(q.last()),
            ));
        }
    }
}

/// A string without a dot is a single segment.
pub proof fn lemma_split_plain(s: Seq<char>)
    requires
        forall|i: int| 0 <= i < s.len() ==> s[i] != '.',
    ensures
        split_dots(s) == seq![s],
    decreases s.len(),
{
    if s.len() > 0 {
        lemma_split_plain(s.drop_last());
        assert(s.drop_last().push(s.last()) =~= s);
        assert(s.last() != '.');
        assert(seq![s.drop_last()].update(0, s.drop_last().push(s.last())) =~= seq![s]);
    } else {
        assert(s =~= Seq::<char>::empty());
    }
}

/// Splits `path` on every dot.
pub fn split_path(path: &str) -> (r: Vec<String>)
    ensures
        seg_views(r@) == split_dots(path@),
{
    let n = path.unicode_len();
    let mut out: Vec<String> = Vec::new();
    let mut start: usize = 0;
    let mut i: usize = 0;
    assert(seg_views(out@) =~= Seq::<Seq<char>>::empty());
    assert(path@.subrange(0, 0) =~= Seq::<char>::empty());
    assert(seg_views(out@).push(path@.subrange(0, 0)) =~= split_dots(path@.subrange(0, 0)));
    while i < n
        invariant
            n == path@.len(),
            start <= i <= n,
            seg_views(out@).push(path@.subrange(start as int, i as int)) == split_dots(
                path@.subrange(0, i as int),
            ),
        decreases n - i,
    {
        let c = path.get_char(i);
        let ghost prefix = path@.subrange(0, i as int + 1);
        assert(prefix.drop_last() =~= path@.subrange(0, i as int));
        if c == '.' {
            let seg = path.substring_char(start, i).to_owned();
            let ghost before = out@;
            out.push(seg);
            assert(seg_views(out@) =~= seg_views(before).push(path@.subrange(start as int, i as int)));
            assert(path@.subrange(i as int + 1, i as int + 1) =~= Seq::<char>::empty());
            start = i + 1;
        } else {
            assert(path@.subrange(start as int, i as int + 1) =~= path@.subrange(
                start as int,
                i as int,
            ).push(c));
        }
        i = i + 1;
    }
    let last = path.substring_char(start, n).to_owned();
    let ghost before = out@;
    out.push(last);
    assert(seg_views(out@) =~= seg_views(before).push(path@.subrange(start as int, n as int)));
    assert(path@.subrange(0, n as int) =~= path@);
    out
}

} // verus!
