//! Merging one movement line.
//!
//! After a slide, the tiles of a line form a packed sequence ordered from the
//! wall outward.  Scanning from the wall, a tile whose outward neighbour has
//! the same value absorbs it: the tile closer to the wall survives with its
//! value doubled, the outward tile is removed.  A tile that has just absorbed
//! a merge is not reconsidered, so a single command doubles no tile more than
//! once and a run of three equal tiles merges only its wall-most pair.

use vstd::prelude::*;
use crate::tile::Tile;

verus! {

/// Whether a tile absorbs its outward neighbour: equal values whose doubled
/// value still fits in `u32` (a machine limit unreachable in realistic play).
pub open spec fn can_merge(a: Tile, b: Tile) -> bool {
    a.value == b.value && a.value * 2 <= u32::MAX
}

/// The surviving tile of a merge: same identity and cell, doubled value.
pub open spec fn doubled(t: Tile) -> Tile {
    Tile { id: t.id, value: (t.value * 2) as u32, col: t.col, row: t.row, phase: t.phase }
}

/// One output slot of a merged line: the surviving tile, and the absorbed
/// source tile where the slot came from a merge.
#[derive(Clone, Copy, Debug)]
pub struct MergeSlot {
    pub out: Tile,
    pub absorbed: Option<Tile>,
}

/// The merged line: a packed sequence of slots, one per surviving tile,
/// ordered from the wall outward.
pub open spec fn merge_slots(s: Seq<Tile>) -> Seq<MergeSlot>
    decreases s.len(),
{
    if s.len() == 0 {
        Seq::empty()
    } else if s.len() >= 2 && can_merge(s[0], s[1]) {
        seq![MergeSlot { out: doubled(s[0]), absorbed: Some(s[1]) }] + merge_slots(s.skip(2))
    } else {
        seq![MergeSlot { out: s[0], absorbed: None }] + merge_slots(s.skip(1))
    }
}

/// Sum of the values of a sequence of tiles.
pub open spec fn tiles_sum(s: Seq<Tile>) -> int
    decreases s.len(),
{
    if s.len() == 0 {
        0
    } else {
        s[0].value + tiles_sum(s.skip(1))
    }
}

/// Sum of the values of the surviving tiles of a merged line.
pub open spec fn slots_sum(ps: Seq<MergeSlot>) -> int
    decreases ps.len(),
{
    if ps.len() == 0 {
        0
    } else {
        ps[0].out.value + slots_sum(ps.skip(1))
    }
}

pub proof fn lemma_tiles_sum_push(s: Seq<Tile>, t: Tile)
    ensures
        tiles_sum(s.push(t)) == tiles_sum(s) + t.value,
    decreases s.len(),
{
    if s.len() == 0 {
        assert(s.push(t) =~= seq![t]);
        assert(seq![t].skip(1) =~= Seq::<Tile>::empty());
        assert(tiles_sum(Seq::<Tile>::empty()) == 0);
        assert(tiles_sum(s.push(t)) == t.value + tiles_sum(seq![t].skip(1)));
    } else {
        assert(s.push(t).skip(1) =~= s.skip(1).push(t));
        lemma_tiles_sum_push(s.skip(1), t);
        assert(s.push(t)[0] == s[0]);
        assert(tiles_sum(s.push(t)) == s[0].value + tiles_sum(s.skip(1).push(t)));
        assert(tiles_sum(s) == s[0].value + tiles_sum(s.skip(1)));
    }
}

pub proof fn lemma_slots_sum_push(ps: Seq<MergeSlot>, x: MergeSlot)
    ensures
        slots_sum(ps.push(x)) == slots_sum(ps) + x.out.value,
    decreases ps.len(),
{
    if ps.len() == 0 {
        assert(ps.push(x) =~= seq![x]);
        assert(seq![x].skip(1) =~= Seq::<MergeSlot>::empty());
        assert(slots_sum(Seq::<MergeSlot>::empty()) == 0);
        assert(slots_sum(ps.push(x)) == x.out.value + slots_sum(seq![x].skip(1)));
    } else {
        assert(ps.push(x).skip(1) =~= ps.skip(1).push(x));
        lemma_slots_sum_push(ps.skip(1), x);
        assert(ps.push(x)[0] == ps[0]);
        assert(slots_sum(ps.push(x)) == ps[0].out.value + slots_sum(ps.skip(1).push(x)));
        assert(slots_sum(ps) == ps[0].out.value + slots_sum(ps.skip(1)));
    }
}

/// `t` is `src` except that its value may have been doubled once.
pub open spec fn from_tile(t: Tile, src: Tile) -> bool {
    &&& t.id == src.id
    &&& t.col == src.col
    &&& t.row == src.row
    &&& t.phase == src.phase
    &&& (t.value == src.value || t.value == 2 * src.value)
}

/// Every tile of the slot comes from the input line: the survivor is an input
/// tile at most doubled (and exactly an input tile when the slot absorbed
/// nothing), the absorbed tile is an input tile unchanged.
pub open spec fn slot_sourced(s: Seq<Tile>, slot: MergeSlot) -> bool {
    &&& exists|i: int| 0 <= i < s.len() && from_tile(slot.out, #[trigger] s[i])
    &&& match slot.absorbed {
        Some(a) => exists|i: int| 0 <= i < s.len() && a == #[trigger] s[i],
        None => exists|i: int| 0 <= i < s.len() && slot.out == #[trigger] s[i],
    }
}

/// Some tile of `s` carries the id `x`.
pub open spec fn tiles_have_id(s: Seq<Tile>, x: u64) -> bool {
    exists|i: int| 0 <= i < s.len() && #[trigger] s[i].id == x
}

/// No two tiles of `s` share an id.
pub open spec fn tiles_distinct_ids(s: Seq<Tile>) -> bool {
    forall|i1: int, i2: int| 0 <= i1 < i2 < s.len() ==> s[i1].id != s[i2].id
}

/// No id occurs both in slot `a` and in slot `b`.
pub open spec fn slots_pair_distinct(a: MergeSlot, b: MergeSlot) -> bool {
    &&& a.out.id != b.out.id
    &&& match a.absorbed {
        Some(x) => x.id != b.out.id && match b.absorbed {
            Some(y) => x.id != y.id,
            None => true,
        },
        None => true,
    }
    &&& match b.absorbed {
        Some(y) => y.id != a.out.id,
        None => true,
    }
}

/// All ids across all slots are pairwise distinct.
pub open spec fn slots_distinct_ids(ps: Seq<MergeSlot>) -> bool {
    &&& forall|j1: int, j2: int| 0 <= j1 < j2 < ps.len() ==>
        slots_pair_distinct(#[trigger] ps[j1], #[trigger] ps[j2])
    &&& forall|j: int| 0 <= j < ps.len() ==> match (#[trigger] ps[j]).absorbed {
        Some(a) => a.id != ps[j].out.id,
        None => true,
    }
}

/// Both ids of the slot occur in `s`.
pub open spec fn slot_ids_from(s: Seq<Tile>, slot: MergeSlot) -> bool {
    &&& tiles_have_id(s, slot.out.id)
    &&& match slot.absorbed {
        Some(a) => tiles_have_id(s, a.id),
        None => true,
    }
}

/// Shape of a merged line: it is no longer than its input, it conserves the
/// sum of values, and every slot is sourced from the input tiles.
pub proof fn lemma_merge_slots_structure(s: Seq<Tile>)
    ensures
        merge_slots(s).len() <= s.len(),
        slots_sum(merge_slots(s)) == tiles_sum(s),
        forall|j: int| 0 <= j < merge_slots(s).len() ==>
            slot_sourced(s, #[trigger] merge_slots(s)[j]),
    decreases s.len(),
{
    let ps = merge_slots(s);
    if s.len() == 0 {
    } else {
        let c: int = if s.len() >= 2 && can_merge(s[0], s[1]) {
            2
        } else {
            1
        };
        let rest = s.skip(c);
        lemma_merge_slots_structure(rest);
        let tail = merge_slots(rest);
        assert(ps[0].absorbed is Some ==> ps[0].absorbed == Some(s[1]));
        assert(from_tile(ps[0].out, s[0]));
        assert(slot_sourced(s, ps[0]));
        // sum of the consumed prefix
        if c == 2 {
            assert(rest == s.skip(1).skip(1)) by {
                assert(s.skip(1).skip(1) =~= s.skip(2));
            }
            assert(tiles_sum(s.skip(1)) == s[1].value + tiles_sum(rest));
            assert(tiles_sum(s) == s[0].value + s[1].value + tiles_sum(rest));
            assert(ps[0].out.value == s[0].value + s[1].value);
        } else {
            assert(tiles_sum(s) == s[0].value + tiles_sum(rest));
        }
        assert(ps == seq![ps[0]] + tail);
        assert(ps.skip(1) =~= tail);
        assert(slots_sum(ps) == ps[0].out.value + slots_sum(tail));
        // lift slot sources from `rest` to `s`
        assert forall|j: int| 0 <= j < ps.len() implies slot_sourced(s, #[trigger] ps[j]) by {
            if j > 0 {
                assert(ps[j] == tail[j - 1]);
                assert(slot_sourced(rest, tail[j - 1]));
                let i0 = choose|i: int| 0 <= i < rest.len()
                    && from_tile(tail[j - 1].out, #[trigger] rest[i]);
                assert(rest[i0] == s[i0 + c]);
                assert(from_tile(ps[j].out, s[i0 + c]));
                match ps[j].absorbed {
                    Some(a) => {
                        let i1 = choose|i: int| 0 <= i < rest.len() && a == #[trigger] rest[i];
                        assert(a == s[i1 + c]);
                    },
                    None => {
                        let i2 = choose|i: int|
                            0 <= i < rest.len() && tail[j - 1].out == #[trigger] rest[i];
                        assert(ps[j].out == s[i2 + c]);
                    },
                }
            }
        }
    }
}

/// If the input tiles carry pairwise distinct ids, so do the slots of the
/// merged line, and every slot id comes from the input line.
pub proof fn lemma_merge_slots_ids(s: Seq<Tile>)
    requires
        tiles_distinct_ids(s),
    ensures
        slots_distinct_ids(merge_slots(s)),
        forall|j: int| 0 <= j < merge_slots(s).len() ==>
            slot_ids_from(s, #[trigger] merge_slots(s)[j]),
    decreases s.len(),
{
    let ps = merge_slots(s);
    if s.len() == 0 {
    } else {
        let c: int = if s.len() >= 2 && can_merge(s[0], s[1]) {
            2
        } else {
            1
        };
        let rest = s.skip(c);
        assert(tiles_distinct_ids(rest)) by {
            assert forall|i1: int, i2: int| 0 <= i1 < i2 < rest.len()
                implies rest[i1].id != rest[i2].id by {
                assert(rest[i1] == s[i1 + c]);
                assert(rest[i2] == s[i2 + c]);
            }
        }
        lemma_merge_slots_ids(rest);
        let tail = merge_slots(rest);
        assert(ps.skip(1) =~= tail);
        // membership, lifted from `rest` to `s`
        assert forall|j: int| 0 <= j < ps.len() implies slot_ids_from(s, #[trigger] ps[j]) by {
            if j == 0 {
                assert(s[0].id == ps[0].out.id);
                match ps[0].absorbed {
                    Some(a) => {
                        assert(a.id == s[1].id);
                    },
                    None => {},
                }
            } else {
                assert(ps[j] == tail[j - 1]);
                assert(slot_ids_from(rest, tail[j - 1]));
                let i0 = choose|i: int| 0 <= i < rest.len() && #[trigger] rest[i].id == tail[j - 1].out.id;
                assert(rest[i0] == s[i0 + c]);
                match ps[j].absorbed {
                    Some(a) => {
                        let i1 = choose|i: int| 0 <= i < rest.len() && #[trigger] rest[i].id == a.id;
                        assert(rest[i1] == s[i1 + c]);
                    },
                    None => {},
                }
            }
        }
        assert forall|j1: int, j2: int| 0 <= j1 < j2 < ps.len()
            implies slots_pair_distinct(#[trigger] ps[j1], #[trigger] ps[j2]) by {
            if j1 == 0 {
                // tail slot ids avoid the ids consumed by the head slot
                assert(ps[0].out.id == s[0].id);
                assert(ps[j2] == tail[j2 - 1]);
                assert(slot_ids_from(rest, tail[j2 - 1]));
                let i0 = choose|i: int| 0 <= i < rest.len()
                    && #[trigger] rest[i].id == tail[j2 - 1].out.id;
                assert(rest[i0] == s[i0 + c]);
                assert(ps[j2].out.id == s[i0 + c].id);
                match ps[j2].absorbed {
                    Some(a) => {
                        let i1 = choose|i: int| 0 <= i < rest.len() && #[trigger] rest[i].id == a.id;
                        assert(rest[i1] == s[i1 + c]);
                        assert(a.id == s[i1 + c].id);
                    },
                    None => {},
                }
            } else {
                assert(ps[j1] == tail[j1 - 1]);
                assert(ps[j2] == tail[j2 - 1]);
                assert(slots_pair_distinct(tail[j1 - 1], tail[j2 - 1]));
            }
        }
        assert forall|j: int| 0 <= j < ps.len() implies match (#[trigger] ps[j]).absorbed {
            Some(a) => a.id != ps[j].out.id,
            None => true,
        } by {
            if j == 0 {
                match ps[0].absorbed {
                    Some(a) => {
                        assert(a.id == s[1].id && ps[0].out.id == s[0].id);
                    },
                    None => {},
                }
            } else {
                assert(ps[j] == tail[j - 1]);
            }
        }
    }
}

/// Merges one line: `buf` holds the tiles of the line ordered from the wall
/// outward, already packed (gaps removed by the caller's collection order).
pub fn merge_line(buf: &Vec<Tile>) -> (slots: Vec<MergeSlot>)
    ensures
        slots@ == merge_slots(buf@),
{
    let mut slots: Vec<MergeSlot> = Vec::new();
    let mut i: usize = 0;
    proof {
        assert(slots@ + merge_slots(buf@.skip(0)) =~= merge_slots(buf@)) by {
            assert(buf@.skip(0) =~= buf@);
        }
    }
    while i < buf.len()
        invariant
            i <= buf.len(),
            merge_slots(buf@) == slots@ + merge_slots(buf@.skip(i as int)),
        decreases buf.len() - i,
    {
        let ghost prev = slots@;
        let ghost rest = buf@.skip(i as int);
        assert(rest[0] == buf@[i as int]);
        if i + 1 < buf.len() && buf[i].value == buf[i + 1].value && buf[i].value <= u32::MAX / 2 {
            let t = buf[i];
            let slot = MergeSlot {
                out: Tile { id: t.id, value: t.value * 2, col: t.col, row: t.row, phase: t.phase },
                absorbed: Some(buf[i + 1]),
            };
            slots.push(slot);
            proof {
                assert(rest[1] == buf@[i + 1]);
                assert(can_merge(rest[0], rest[1]));
                assert(slot.out == doubled(rest[0]));
                assert(rest.skip(2) =~= buf@.skip(i + 2));
                assert(merge_slots(rest) == seq![slot] + merge_slots(buf@.skip(i + 2)));
                assert(prev + merge_slots(rest) =~= (prev + seq![slot]) + merge_slots(
                    buf@.skip(i + 2),
                ));
            }
            i = i + 2;
        } else {
            let t = buf[i];
            let slot = MergeSlot { out: t, absorbed: None };
            slots.push(slot);
            proof {
                assert(!(rest.len() >= 2 && can_merge(rest[0], rest[1])));
                assert(rest.skip(1) =~= buf@.skip(i + 1));
                assert(merge_slots(rest) == seq![slot] + merge_slots(buf@.skip(i + 1)));
                assert(prev + merge_slots(rest) =~= (prev + seq![slot]) + merge_slots(
                    buf@.skip(i + 1),
                ));
            }
            i = i + 1;
        }
    }
    proof {
        assert(buf@.skip(buf@.len() as int) =~= Seq::<Tile>::empty());
        assert(slots@ + merge_slots(buf@.skip(i as int)) =~= slots@);
    }
    slots
}

} // verus!
