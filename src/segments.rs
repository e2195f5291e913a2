//! Dot-separated segments of a text: splitting, joining, and the facts that
//! tie the two together.

use vstd::prelude::*;
use vstd::string::{StrSliceExecFns, StringExecFns};

verus! {

/// The text contains no `.`.
pub open spec fn no_dot(s: Seq<char>) -> bool {
    !s.contains('.')
}

/// The pieces of `s` between its dots, in order; a text without a dot is a
/// single piece, and the empty text is one empty piece.
pub open spec fn split_dots(s: Seq<char>) -> Seq<Seq<char>>
    decreases s.len(),
{
    if s.len() == 0 {
        seq![Seq::<char>::empty()]
    } else {
        let head = split_dots(s.drop_last());
        if s.last() == '.' {
            head.push(Seq::<char>::empty())
        } else {
            head.update(head.len() - 1, head.last().push(s.last()))
        }
    }
}

/// The pieces written one after another with a `.` between each two.
pub open spec fn join_dots(segs: Seq<Seq<char>>) -> Seq<char>
    decreases segs.len(),
{
    if segs.len() == 0 {
        Seq::<char>::empty()
    } else if segs.len() == 1 {
        segs[0]
    } else {
        join_dots(segs.drop_last()) + seq!['.'] + segs.last()
    }
}

/// Every piece is free of dots.
pub open spec fn all_no_dot(segs: Seq<Seq<char>>) -> bool {
    forall|i: int| 0 <= i < segs.len() ==> no_dot(#[trigger] segs[i])
}

/// The views of a sequence of strings.
pub open spec fn views(v: Seq<String>) -> Seq<Seq<char>> {
    v.map_values(|x: String| x@)
}

/// Splitting gives at least one piece, and no piece holds a dot.
pub proof fn lemma_split_shape(s: Seq<char>)
    ensures
        split_dots(s).len() >= 1,
        all_no_dot(split_dots(s)),
        (split_dots(s).len() == 1) == no_dot(s),
    decreases s.len(),
{
    if s.len() > 0 {
        let t = s.drop_last();
        lemma_split_shape(t);
        let head = split_dots(t);
        assert(s == t.push(s.last()));
        if s.last() == '.' {
            assert(s[s.len() - 1] == '.');
        } else {
            let seg = head.last().push(s.last());
            assert(no_dot(seg)) by {
                assert(no_dot(head[head.len() - 1]));
                if seg.contains('.') {
                    let k = choose|k: int| 0 <= k < seg.len() && seg[k] == '.';
                    if k < seg.len() - 1 {
                        assert(head.last()[k] == '.');
                    }
                }
            }
            assert forall|i: int| 0 <= i < split_dots(s).len() implies no_dot(
                #[trigger] split_dots(s)[i],
            ) by {
                if i < head.len() - 1 {
                    assert(split_dots(s)[i] == head[i]);
                }
            }
            if no_dot(s) {
                assert forall|k: int| 0 <= k < t.len() implies t[k] != '.' by {
                    assert(t[k] == s[k]);
                }
            } else {
                let k = choose|k: int| 0 <= k < s.len() && s[k] == '.';
                assert(k < s.len() - 1);
                assert(t[k] == '.');
            }
        }
        if s.last() == '.' {
            assert(!no_dot(s));
        }
    }
}

/// Appending one more piece to a non-empty list of pieces.
pub proof fn lemma_join_push(segs: Seq<Seq<char>>, x: Seq<char>)
    requires
        segs.len() >= 1,
    ensures
        join_dots(segs.push(x)) == join_dots(segs) + seq!['.'] + x,
{
    assert(segs.push(x).drop_last() == segs);
}

/// Joining the pieces of a text gives the text back.
pub proof fn lemma_join_split(s: Seq<char>)
    ensures
        join_dots(split_dots(s)) == s,
    decreases s.len(),
{
    if s.len() > 0 {
        let t = s.drop_last();
        let c = s.last();
        lemma_join_split(t);
        lemma_split_shape(t);
        let head = split_dots(t);
        assert(s == t.push(c));
        if c == '.' {
            lemma_join_push(head, Seq::<char>::empty());
            assert(t + seq!['.'] + Seq::<char>::empty() == s);
        } else {
            let nh = head.update(head.len() - 1, head.last().push(c));
            if head.len() == 1 {
                assert(head.last() == join_dots(head));
            } else {
                assert(nh.drop_last() == head.drop_last());
                assert(join_dots(head) == join_dots(head.drop_last()) + seq!['.']
                    + head.last());
            }
            assert(join_dots(nh) == s);
        }
    }
}

/// Appending dot-free text extends the last piece.
pub proof fn lemma_split_append_plain(a: Seq<char>, x: Seq<char>)
    requires
        no_dot(x),
    ensures
        split_dots(a + x) == split_dots(a).update(
            split_dots(a).len() - 1,
            split_dots(a).last() + x,
        ),
    decreases x.len(),
{
    lemma_split_shape(a);
    if x.len() == 0 {
        assert(a + x == a);
        assert(split_dots(a).last() + x == split_dots(a).last());
        assert(split_dots(a).update(split_dots(a).len() - 1, split_dots(a).last())
            == split_dots(a));
    } else {
        let y = x.drop_last();
        let c = x.last();
        assert(x[x.len() - 1] == c);
        assert(no_dot(y)) by {
            assert forall|k: int| 0 <= k < y.len() implies y[k] != '.' by {
                assert(y[k] == x[k]);
            }
        }
        lemma_split_append_plain(a, y);
        assert(a + x == (a + y).push(c));
        assert((a + x).drop_last() == a + y);
        assert(split_dots(a).last() + x == (split_dots(a).last() + y).push(c));
        assert(split_dots(a + x) == split_dots(a).update(
            split_dots(a).len() - 1,
            split_dots(a).last() + x,
        ));
    }
}

/// Splitting the join of dot-free pieces gives the pieces back.
pub proof fn lemma_split_join(segs: Seq<Seq<char>>)
    requires
        segs.len() >= 1,
        all_no_dot(segs),
    ensures
        split_dots(join_dots(segs)) == segs,
    decreases segs.len(),
{
    if segs.len() == 1 {
        assert(no_dot(segs[0]));
        lemma_split_append_plain(Seq::<char>::empty(), segs[0]);
        assert(Seq::<char>::empty() + segs[0] == segs[0]);
        assert(split_dots(Seq::<char>::empty()) == seq![Seq::<char>::empty()]);
        assert(Seq::<char>::empty() + segs[0] == segs[0]);
        assert(split_dots(segs[0]) == segs);
    } else {
        let q = segs.drop_last();
        let x = segs.last();
        assert(no_dot(segs[segs.len() - 1]));
        assert(all_no_dot(q)) by {
            assert forall|i: int| 0 <= i < q.len() implies no_dot(#[trigger] q[i]) by {
                assert(q[i] == segs[i]);
            }
        }
        lemma_split_join(q);
        let a = join_dots(q) + seq!['.'];
        assert(join_dots(segs) == a + x);
        assert(a == join_dots(q).push('.'));
        assert(a.drop_last() == join_dots(q));
        lemma_split_append_plain(a, x);
        assert(split_dots(a) == q.push(Seq::<char>::empty()));
        assert(Seq::<char>::empty() + x == x);
        assert(split_dots(a + x) == segs);
    }
}

/// The pieces of `s` between its dots.
pub fn split_segments(s: &str) -> (r: Vec<String>)
    ensures
        views(r@) == split_dots(s@),
{
    let len = s.unicode_len();
    let mut segs: Vec<String> = Vec::new();
    let mut start: usize = 0;
    let mut i: usize = 0;
    assert(s@.subrange(0, 0) =~= Seq::<char>::empty());
    assert(views(segs@) =~= Seq::<Seq<char>>::empty());
    assert(split_dots(Seq::<char>::empty()) == seq![Seq::<char>::empty()]);
    assert(views(segs@) + seq![s@.subrange(0, 0)] =~= split_dots(s@.subrange(0, 0)));
    while i < len
        invariant
            len == s@.len(),
            start <= i <= len,
            views(segs@) + seq![s@.subrange(start as int, i as int)] == split_dots(
                s@.subrange(0, i as int),
            ),
        decreases len - i,
    {
        let c = s.get_char(i);
        let ghost prev = s@.subrange(0, i as int);
        let ghost next = s@.subrange(0, i + 1);
        assert(next.drop_last() == prev);
        assert(next.last() == c);
        proof {
            lemma_split_shape(prev);
        }
        if c == '.' {
            let piece = s.substring_char(start, i).to_owned();
            let ghost earlier = segs@;
            segs.push(piece);
            start = i + 1;
            assert(views(segs@) =~= views(earlier).push(piece@));
            assert(s@.subrange(start as int, i + 1) =~= Seq::<char>::empty());
            assert(views(segs@) + seq![s@.subrange(start as int, i + 1)] =~= split_dots(next));
        } else {
            assert(s@.subrange(start as int, i + 1) =~= s@.subrange(start as int, i as int).push(c));
            assert(views(segs@) + seq![s@.subrange(start as int, i + 1)] =~= split_dots(next));
        }
        i = i + 1;
    }
    let piece = s.substring_char(start, len).to_owned();
    segs.push(piece);
    assert(s@.subrange(0, len as int) == s@);
    assert(views(segs@) =~= split_dots(s@));
    segs
}

/// The pieces `segs[lo..hi]` joined by dots.
pub fn join_segments(segs: &Vec<String>, lo: usize, hi: usize) -> (r: String)
    requires
        lo <= hi <= segs@.len(),
    ensures
        r@ == join_dots(views(segs@).subrange(lo as int, hi as int)),
{
    if lo == hi {
        return String::new();
    }
    let mut r = segs[lo].clone();
    let mut k: usize = lo + 1;
    assert(views(segs@).subrange(lo as int, k as int) =~= seq![segs@[lo as int]@]);
    while k < hi
        invariant
            lo < k <= hi <= segs@.len(),
            r@ == join_dots(views(segs@).subrange(lo as int, k as int)),
        decreases hi - k,
    {
        let ghost before = views(segs@).subrange(lo as int, k as int);
        proof {
            reveal_strlit(".");
            lemma_join_push(before, segs@[k as int]@);
            assert(views(segs@).subrange(lo as int, k + 1) =~= before.push(segs@[k as int]@));
        }
        r.append(".");
        r.append(segs[k].as_str());
        k = k + 1;
    }
    r
}

} // verus!
