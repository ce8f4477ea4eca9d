//! The changelog segmenter: a one-shot, forward-only grouping automaton
//! that turns a block sequence into ordered `(version, content)` entries,
//! with heading recognition as the only boundary signal.

use crate::block::Block;
use crate::block::boundary_version;
use crate::block::is_boundary;
use crate::version::Version;
use vstd::prelude::*;

verus! {

/// The entries the grouping phase still owes, given the pending version and
/// the unconsumed blocks: the first entry's content is the run of
/// non-boundary blocks at the front, and each further boundary opens the
/// next entry.
pub open spec fn group_from(v: Version, s: Seq<Block>) -> Seq<(Version, Seq<Block>)>
    decreases s.len(),
{
    if s.len() == 0 {
        seq![(v, Seq::<Block>::empty())]
    } else if is_boundary(s[0]) {
        seq![(v, Seq::<Block>::empty())] + group_from(boundary_version(s[0]), s.drop_first())
    } else {
        let rest = group_from(v, s.drop_first());
        rest.update(0, (v, seq![s[0]] + rest[0].1))
    }
}

/// All entries of a document: blocks before the first boundary are skipped,
/// and a document with no boundary at all has no entries.
pub open spec fn seek(s: Seq<Block>) -> Seq<(Version, Seq<Block>)>
    decreases s.len(),
{
    if s.len() == 0 {
        Seq::empty()
    } else if is_boundary(s[0]) {
        group_from(boundary_version(s[0]), s.drop_first())
    } else {
        seek(s.drop_first())
    }
}

/// The grouping phase always owes at least the pending version's own entry,
/// and owes it first.
pub proof fn lemma_group_from_first(v: Version, s: Seq<Block>)
    ensures
        group_from(v, s).len() >= 1,
        group_from(v, s)[0].0 == v,
    decreases s.len(),
{
    if s.len() > 0 && !is_boundary(s[0]) {
        lemma_group_from_first(v, s.drop_first());
    }
}

/// Non-boundary blocks in front of the unconsumed tail land, in order, at
/// the front of the first entry's content, and change nothing else.
pub proof fn lemma_group_from_prepend(v: Version, c: Seq<Block>, s: Seq<Block>)
    requires
        forall|i: int| 0 <= i < c.len() ==> !is_boundary(#[trigger] c[i]),
    ensures
        group_from(v, c + s) == group_from(v, s).update(0, (v, c + group_from(v, s)[0].1)),
    decreases c.len(),
{
    let base = group_from(v, s);
    lemma_group_from_first(v, s);
    if c.len() == 0 {
        assert(c + s =~= s);
        assert(c + base[0].1 =~= base[0].1);
        assert(base[0] == (v, base[0].1));
        assert(base.update(0, (v, c + base[0].1)) =~= base);
    } else {
        let cs = c + s;
        assert(cs[0] == c[0]);
        assert(!is_boundary(cs[0]));
        assert(cs.drop_first() =~= c.drop_first() + s);
        lemma_group_from_prepend(v, c.drop_first(), s);
        let rest = group_from(v, cs.drop_first());
        assert(rest == base.update(0, (v, c.drop_first() + base[0].1)));
        assert(rest[0].1 == c.drop_first() + base[0].1);
        assert(seq![cs[0]] + (c.drop_first() + base[0].1) =~= c + base[0].1);
        assert(group_from(v, cs) == rest.update(0, (v, seq![cs[0]] + rest[0].1)));
        assert(rest.update(0, (v, seq![cs[0]] + rest[0].1)) =~= base.update(
            0,
            (v, c + base[0].1),
        ));
    }
}

/// Reversal turns a pop from the back into a pop from the front.
proof fn lemma_reverse_pop<A>(s: Seq<A>)
    requires
        s.len() > 0,
    ensures
        s.reverse().len() == s.len(),
        s.reverse()[0] == s.last(),
        s.drop_last().reverse() =~= s.reverse().drop_first(),
{
}

/// Reversal turns a push at the back into a push at the front.
proof fn lemma_reverse_push<A>(s: Seq<A>, b: A)
    ensures
        (s + seq![b]).reverse() =~= seq![b] + s.reverse(),
{
}

/// A non-boundary block never ends a scan early: the seeking phase skips
/// it, and the grouping phase takes it into the current entry's content.
pub proof fn lemma_non_boundary_skipped(b: Block, v: Version, s: Seq<Block>)
    requires
        !is_boundary(b),
    ensures
        seek(seq![b] + s) == seek(s),
        group_from(v, seq![b] + s) == group_from(v, s).update(
            0,
            (v, seq![b] + group_from(v, s)[0].1),
        ),
{
    assert((seq![b] + s)[0] == b);
    assert((seq![b] + s).drop_first() =~= s);
    lemma_group_from_prepend(v, seq![b], s);
}

/// A document with no level-2 heading yields no entries at all.
pub proof fn lemma_no_heading_no_entries(s: Seq<Block>)
    requires
        forall|i: int| 0 <= i < s.len() ==> match (#[trigger] s[i]).kind {
            crate::block::BlockKind::Heading(level, _) => level != 2,
            crate::block::BlockKind::Content => true,
        },
    ensures
        seek(s).len() == 0,
    decreases s.len(),
{
    if s.len() > 0 {
        crate::block::lemma_non_heading_never_boundary(s[0]);
        assert(forall|i: int|
            0 <= i < s.drop_first().len() ==> (#[trigger] s.drop_first()[i]) == s[i + 1]);
        lemma_no_heading_no_entries(s.drop_first());
    }
}

/// A document holding exactly one boundary yields exactly one entry: that
/// boundary's version beside every block that follows the boundary, in
/// original order; whatever stood before the boundary is skipped.
pub proof fn lemma_single_heading(pre: Seq<Block>, h: Block, content: Seq<Block>)
    requires
        forall|i: int| 0 <= i < pre.len() ==> !is_boundary(#[trigger] pre[i]),
        is_boundary(h),
        forall|i: int| 0 <= i < content.len() ==> !is_boundary(#[trigger] content[i]),
    ensures
        seek(pre + seq![h] + content) == seq![(boundary_version(h), content)],
    decreases pre.len(),
{
    let s = pre + seq![h] + content;
    if pre.len() == 0 {
        assert(s[0] == h);
        assert(s.drop_first() =~= content);
        let v = boundary_version(h);
        lemma_group_from_prepend(v, content, Seq::<Block>::empty());
        assert(content + Seq::<Block>::empty() =~= content);
        assert(group_from(v, Seq::<Block>::empty()) == seq![(v, Seq::<Block>::empty())]);
        assert(group_from(v, content) =~= seq![(v, content)]);
        assert(seek(s) == group_from(v, content));
    } else {
        assert(s[0] == pre[0]);
        assert(!is_boundary(s[0]));
        assert(s.drop_first() =~= pre.drop_first() + seq![h] + content);
        assert(forall|i: int|
            0 <= i < pre.drop_first().len() ==> (#[trigger] pre.drop_first()[i]) == pre[i + 1]);
        lemma_single_heading(pre.drop_first(), h, content);
    }
}

/// The indices of the boundary blocks of a document, in document order.
pub open spec fn boundary_indices(s: Seq<Block>) -> Seq<int>
    decreases s.len(),
{
    if s.len() == 0 {
        Seq::empty()
    } else {
        let tail = boundary_indices(s.drop_first()).map_values(|j: int| j + 1);
        if is_boundary(s[0]) {
            seq![0int] + tail
        } else {
            tail
        }
    }
}

/// `boundary_indices` lists exactly the boundaries: every listed index is a
/// boundary, the list is strictly increasing, and no boundary is missing.
pub proof fn lemma_boundary_indices(s: Seq<Block>)
    ensures
        forall|k: int|
            0 <= k < boundary_indices(s).len() ==> 0 <= #[trigger] boundary_indices(s)[k]
                < s.len() && is_boundary(s[boundary_indices(s)[k]]),
        forall|k: int|
            0 <= k && k + 1 < boundary_indices(s).len() ==> #[trigger] boundary_indices(s)[k]
                < boundary_indices(s)[k + 1],
        forall|j: int| 0 <= j < s.len() && is_boundary(s[j]) ==> boundary_indices(s).contains(j),
    decreases s.len(),
{
    if s.len() > 0 {
        let sp = s.drop_first();
        lemma_boundary_indices(sp);
        let bip = boundary_indices(sp);
        let tail = bip.map_values(|j: int| j + 1);
        let bi = boundary_indices(s);
        assert forall|j: int| 0 <= j < s.len() && is_boundary(s[j]) implies bi.contains(j) by {
            if j == 0 {
                assert(bi[0] == 0);
            } else {
                assert(sp[j - 1] == s[j]);
                assert(bip.contains(j - 1));
                let k = choose|k: int| 0 <= k < bip.len() && bip[k] == j - 1;
                assert(tail[k] == j);
                if is_boundary(s[0]) {
                    assert(bi[k + 1] == j);
                } else {
                    assert(bi[k] == j);
                }
            }
        }
    }
}

/// Where each entry of the grouping phase comes from: one entry for the
/// pending version, holding the blocks up to the first boundary, then one
/// entry per boundary, holding the blocks strictly between it and the next
/// boundary (or the end, for the last entry).
pub proof fn lemma_group_entries(v: Version, s: Seq<Block>)
    ensures
        group_from(v, s).len() == boundary_indices(s).len() + 1,
        group_from(v, s)[0].0 == v,
        group_from(v, s)[0].1 == s.subrange(
            0,
            if boundary_indices(s).len() > 0 {
                boundary_indices(s)[0]
            } else {
                s.len() as int
            },
        ),
        forall|k: int|
            0 <= k < boundary_indices(s).len() ==> (#[trigger] group_from(v, s)[k + 1]).0
                == boundary_version(s[boundary_indices(s)[k]]),
        forall|k: int|
            0 <= k < boundary_indices(s).len() ==> (#[trigger] group_from(v, s)[k + 1]).1
                == s.subrange(
                boundary_indices(s)[k] + 1,
                if k + 1 < boundary_indices(s).len() {
                    boundary_indices(s)[k + 1]
                } else {
                    s.len() as int
                },
            ),
    decreases s.len(),
{
    lemma_boundary_indices(s);
    let bi = boundary_indices(s);
    let g = group_from(v, s);
    if s.len() == 0 {
        assert(g[0].1 =~= s.subrange(0, 0));
    } else {
        let sp = s.drop_first();
        let bip = boundary_indices(sp);
        let tail = bip.map_values(|j: int| j + 1);
        lemma_boundary_indices(sp);
        assert(forall|a: int, b: int|
            0 <= a <= b <= sp.len() ==> #[trigger] sp.subrange(a, b) =~= s.subrange(a + 1, b + 1));
        if is_boundary(s[0]) {
            let v0 = boundary_version(s[0]);
            lemma_group_entries(v0, sp);
            let gp = group_from(v0, sp);
            assert(bi == seq![0int] + tail);
            assert(g == seq![(v, Seq::<Block>::empty())] + gp);
            assert(g[0].1 =~= s.subrange(0, 0));
            assert forall|k: int| 0 <= k < bi.len() implies (#[trigger] g[k + 1]).0
                == boundary_version(s[bi[k]]) && g[k + 1].1 == s.subrange(
                bi[k] + 1,
                if k + 1 < bi.len() {
                    bi[k + 1]
                } else {
                    s.len() as int
                },
            ) by {
                if k == 0 {
                    assert(g[1] == gp[0]);
                    assert(bi[0] == 0);
                    assert(s[0] == s[bi[0]]);
                    if bip.len() > 0 {
                        assert(bi[1] == tail[0]);
                        assert(gp[0].1 == sp.subrange(0, bip[0]));
                        assert(sp.subrange(0, bip[0]) =~= s.subrange(1, bip[0] + 1));
                    } else {
                        assert(gp[0].1 == sp.subrange(0, sp.len() as int));
                        assert(sp.subrange(0, sp.len() as int) =~= s.subrange(1, s.len() as int));
                    }
                } else {
                    assert(g[k + 1] == gp[k]);
                    assert(gp[k] == gp[(k - 1) + 1]);
                    assert(bi[k] == tail[k - 1]);
                    assert(bi[k] == bip[k - 1] + 1);
                    assert(sp[bip[k - 1]] == s[bi[k]]);
                    if k + 1 < bi.len() {
                        assert(bi[k + 1] == tail[k]);
                        assert(sp.subrange(bip[k - 1] + 1, bip[k]) =~= s.subrange(
                            bi[k] + 1,
                            bi[k + 1],
                        ));
                    } else {
                        assert(sp.subrange(bip[k - 1] + 1, sp.len() as int) =~= s.subrange(
                            bi[k] + 1,
                            s.len() as int,
                        ));
                    }
                }
            }
        } else {
            lemma_group_entries(v, sp);
            let gp = group_from(v, sp);
            assert(bi == tail);
            assert(g == gp.update(0, (v, seq![s[0]] + gp[0].1)));
            if bip.len() > 0 {
                assert(seq![s[0]] + sp.subrange(0, bip[0]) =~= s.subrange(0, bip[0] + 1));
                assert(bi[0] == bip[0] + 1);
            } else {
                assert(seq![s[0]] + sp.subrange(0, sp.len() as int) =~= s.subrange(
                    0,
                    s.len() as int,
                ));
            }
            assert forall|k: int| 0 <= k < bi.len() implies (#[trigger] g[k + 1]).0
                == boundary_version(s[bi[k]]) && g[k + 1].1 == s.subrange(
                bi[k] + 1,
                if k + 1 < bi.len() {
                    bi[k + 1]
                } else {
                    s.len() as int
                },
            ) by {
                assert(g[k + 1] == gp[k + 1]);
                assert(bi[k] == bip[k] + 1);
                assert(sp[bip[k]] == s[bi[k]]);
                if k + 1 < bi.len() {
                    assert(bi[k + 1] == bip[k + 1] + 1);
                    assert(sp.subrange(bip[k] + 1, bip[k + 1]) =~= s.subrange(
                        bi[k] + 1,
                        bi[k + 1],
                    ));
                } else {
                    assert(sp.subrange(bip[k] + 1, sp.len() as int) =~= s.subrange(
                        bi[k] + 1,
                        s.len() as int,
                    ));
                }
            }
        }
    }
}

/// Entry-for-heading correspondence over a whole document: there is exactly
/// one entry per boundary heading, in document order; entry `k` names the
/// `k`-th boundary's version, and its content is exactly the blocks
/// strictly between that boundary and the next (or the end of the document,
/// for the last entry).
pub proof fn lemma_entries_match_headings(s: Seq<Block>)
    ensures
        seek(s).len() == boundary_indices(s).len(),
        forall|k: int|
            0 <= k < boundary_indices(s).len() ==> (#[trigger] seek(s)[k]).0 == boundary_version(
                s[boundary_indices(s)[k]],
            ),
        forall|k: int|
            0 <= k < boundary_indices(s).len() ==> (#[trigger] seek(s)[k]).1 == s.subrange(
                boundary_indices(s)[k] + 1,
                if k + 1 < boundary_indices(s).len() {
                    boundary_indices(s)[k + 1]
                } else {
                    s.len() as int
                },
            ),
    decreases s.len(),
{
    lemma_boundary_indices(s);
    let bi = boundary_indices(s);
    if s.len() == 0 {
    } else {
        let sp = s.drop_first();
        let bip = boundary_indices(sp);
        let tail = bip.map_values(|j: int| j + 1);
        lemma_boundary_indices(sp);
        assert(forall|a: int, b: int|
            0 <= a <= b <= sp.len() ==> #[trigger] sp.subrange(a, b) =~= s.subrange(a + 1, b + 1));
        if is_boundary(s[0]) {
            let v0 = boundary_version(s[0]);
            lemma_group_entries(v0, sp);
            let gp = group_from(v0, sp);
            assert(bi == seq![0int] + tail);
            assert(seek(s) == gp);
            assert forall|k: int| 0 <= k < bi.len() implies (#[trigger] seek(s)[k]).0
                == boundary_version(s[bi[k]]) && seek(s)[k].1 == s.subrange(
                bi[k] + 1,
                if k + 1 < bi.len() {
                    bi[k + 1]
                } else {
                    s.len() as int
                },
            ) by {
                if k == 0 {
                    assert(bi[0] == 0);
                    assert(gp[0].0 == v0);
                    if bip.len() > 0 {
                        assert(bi[1] == tail[0]);
                        assert(sp.subrange(0, bip[0]) =~= s.subrange(1, bip[0] + 1));
                    } else {
                        assert(sp.subrange(0, sp.len() as int) =~= s.subrange(1, s.len() as int));
                    }
                } else {
                    assert(gp[k] == gp[(k - 1) + 1]);
                    assert(bi[k] == bip[k - 1] + 1);
                    assert(sp[bip[k - 1]] == s[bi[k]]);
                    if k + 1 < bi.len() {
                        assert(bi[k + 1] == tail[k]);
                        assert(sp.subrange(bip[k - 1] + 1, bip[k]) =~= s.subrange(
                            bi[k] + 1,
                            bi[k + 1],
                        ));
                    } else {
                        assert(sp.subrange(bip[k - 1] + 1, sp.len() as int) =~= s.subrange(
                            bi[k] + 1,
                            s.len() as int,
                        ));
                    }
                }
            }
        } else {
            lemma_entries_match_headings(sp);
            assert(bi == tail);
            assert(seek(s) == seek(sp));
            assert forall|k: int| 0 <= k < bi.len() implies (#[trigger] seek(s)[k]).0
                == boundary_version(s[bi[k]]) && seek(s)[k].1 == s.subrange(
                bi[k] + 1,
                if k + 1 < bi.len() {
                    bi[k + 1]
                } else {
                    s.len() as int
                },
            ) by {
                assert(bi[k] == bip[k] + 1);
                assert(sp[bip[k]] == s[bi[k]]);
                assert(seek(sp)[k].0 == boundary_version(sp[bip[k]]));
                if k + 1 < bi.len() {
                    assert(bi[k + 1] == bip[k + 1] + 1);
                    assert(sp.subrange(bip[k] + 1, bip[k + 1]) =~= s.subrange(bi[k] + 1, bi[k + 1]));
                } else {
                    assert(sp.subrange(bip[k] + 1, sp.len() as int) =~= s.subrange(
                        bi[k] + 1,
                        s.len() as int,
                    ));
                }
            }
        }
    }
}

/// The segmenter. Between steps it owns the unconsumed tail of the block
/// sequence (held reversed, so the front of the document is at the back)
/// and the version whose entry it owes next; once the tail is exhausted
/// with no version pending, it produces nothing further.
#[derive(Debug)]
pub struct Changelog {
    rest: Vec<Block>,
    pending: Option<Version>,
}

impl Changelog {
    /// The blocks not yet consumed, in document order.
    pub closed spec fn remaining(self) -> Seq<Block> {
        self.rest@.reverse()
    }

    /// The entries this segmenter will still produce, in order.
    pub closed spec fn future(self) -> Seq<(Version, Seq<Block>)> {
        match self.pending {
            None => Seq::empty(),
            Some(v) => group_from(v, self.remaining()),
        }
    }

    /// Scan forward for the first block that classifies as a version, and
    /// hold it pending; everything before it is skipped. A document with no
    /// recognizable heading yields no entries at all.
    pub fn new(blocks: Vec<Block>) -> (c: Changelog)
        ensures
            c.future() == seek(blocks@),
    {
        let ghost all = blocks@;
        let mut input = blocks;
        let mut rest: Vec<Block> = Vec::new();
        loop
            invariant
                all == blocks@,
                input@ + rest@.reverse() == all,
            ensures
                input@.len() == 0,
                input@ + rest@.reverse() == all,
            decreases input@.len(),
        {
            match input.pop() {
                Some(b) => {
                    proof {
                        lemma_reverse_push(rest@, b);
                        assert(input@ + (rest@ + seq![b]).reverse() =~= all);
                        assert(rest@ + seq![b] =~= rest@.push(b));
                    }
                    rest.push(b);
                },
                None => {
                    break ;
                },
            }
        }
        proof {
            assert(input@ =~= Seq::<Block>::empty());
            assert(input@ + rest@.reverse() =~= rest@.reverse());
        }
        loop
            invariant
                all == blocks@,
                seek(rest@.reverse()) == seek(all),
            decreases rest@.len(),
        {
            let ghost before = rest@.reverse();
            let ghost prev = rest@;
            match rest.pop() {
                None => {
                    proof {
                        assert(rest@.reverse() =~= Seq::<Block>::empty());
                        assert(seek(all) =~= Seq::<(Version, Seq<Block>)>::empty());
                    }
                    return Changelog { rest, pending: None };
                },
                Some(b) => {
                    proof {
                        assert(prev =~= rest@.push(b));
                        lemma_reverse_pop(prev);
                        assert(before[0] == b);
                        assert(rest@ =~= prev.drop_last());
                        assert(rest@.reverse() == before.drop_first());
                    }
                    match Version::try_from_block(&b) {
                        Ok(v) => {
                            proof {
                                assert(is_boundary(before[0]) && boundary_version(before[0]) == v);
                                assert(seek(before) == group_from(
                                    boundary_version(before[0]),
                                    before.drop_first(),
                                ));
                                assert(group_from(v, rest@.reverse()) == seek(all));
                            }
                            return Changelog { rest, pending: Some(v) };
                        },
                        Err(_) => {},
                    }
                },
            }
        }
    }

    /// Produce the next `(version, content)` entry, or nothing once no
    /// version is pending. The content handed out is exactly the run of
    /// non-boundary blocks that follows this entry's heading.
    pub fn next(&mut self) -> (r: Option<(Version, Vec<Block>)>)
        ensures
            old(self).future().len() == 0 ==> r is None && final(self).future() == old(self).future(),
            old(self).future().len() > 0 ==> {
                &&& r matches Some(e)
                &&& e.0 == old(self).future()[0].0
                &&& e.1@ == old(self).future()[0].1
                &&& final(self).future() == old(self).future().drop_first()
            },
    {
        let v = match self.pending.take() {
            None => {
                return None;
            },
            Some(v) => v,
        };
        let ghost r0 = old(self).remaining();
        proof {
            lemma_group_from_first(v, r0);
        }
        let mut contents: Vec<Block> = Vec::new();
        loop
            invariant
                self.pending is None,
                forall|i: int| 0 <= i < contents@.len() ==> !is_boundary(#[trigger] contents@[i]),
                contents@ + self.remaining() == r0,
                old(self).future() == group_from(v, r0),
            decreases self.rest@.len(),
        {
            let ghost before = self.remaining();
            let ghost prev = self.rest@;
            match self.rest.pop() {
                None => {
                    proof {
                        assert(before =~= Seq::<Block>::empty());
                        assert(contents@ + before =~= contents@);
                        lemma_group_from_prepend(v, contents@, Seq::<Block>::empty());
                        assert(contents@ + Seq::<Block>::empty() =~= contents@);
                        assert(group_from(v, r0) =~= seq![(v, contents@)]);
                        assert(self.future() =~= group_from(v, r0).drop_first());
                    }
                    return Some((v, contents));
                },
                Some(b) => {
                    proof {
                        assert(prev =~= self.rest@.push(b));
                        lemma_reverse_pop(prev);
                        assert(before[0] == b);
                        assert(self.rest@ =~= prev.drop_last());
                        assert(self.remaining() == before.drop_first());
                    }
                    match Version::try_from_block(&b) {
                        Ok(nv) => {
                            proof {
                                lemma_group_from_prepend(v, contents@, before);
                                assert(group_from(v, before)[0].1 =~= Seq::<Block>::empty());
                                assert(contents@ + Seq::<Block>::empty() =~= contents@);
                                assert(group_from(v, r0) =~= seq![(v, contents@)] + group_from(
                                    nv,
                                    before.drop_first(),
                                ));
                                assert(group_from(nv, before.drop_first()) =~= group_from(
                                    v,
                                    r0,
                                ).drop_first());
                            }
                            self.pending = Some(nv);
                            return Some((v, contents));
                        },
                        Err(_) => {
                            contents.push(b);
                        },
                    }
                },
            }
        }
    }
}

} // verus!
