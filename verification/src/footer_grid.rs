//! The footer panel strip: seven slots, each a vertical stack of up to
//! five panels.
//!
//! A structurally parallel engine to the main grid, with its own rules:
//! slots instead of rows, a top/bottom-half drop zone instead of a column,
//! a fullscreen panel instead of a maximized one, and unconditional
//! left-compaction after every close or drop, so occupied slots always sit
//! contiguously at the strip's left edge.

use vstd::prelude::*;
use crate::geometry::{Point, Rect};
use crate::ids::{footer_panel_id_seq, footer_panel_id_string, str_eq};
use crate::layout_state::{holds_id, remove_first};
use crate::seq_facts::{
    lemma_insert_contains,
    lemma_insert_no_dup,
    lemma_remove_value_contains,
    lemma_remove_value_no_dup,
};

verus! {

/// One footer slot: its visibility and the panels stacked in it, top first.
#[derive(Clone, Debug, PartialEq, Eq)]
pub struct FooterSlotState {
    /// Whether the slot is shown.
    pub visible: bool,
    /// The stacked panel tokens, top to bottom, at most five.
    pub panel_ids: Vec<String>,
}

impl FooterSlotState {
    /// The stacked tokens.
    pub open spec fn ids(self) -> Seq<Seq<char>> {
        self.panel_ids.deep_view()
    }

    /// Visibility and stack together, the slot's abstract value.
    pub open spec fn pair(self) -> (bool, Seq<Seq<char>>) {
        (self.visible, self.ids())
    }
}

/// The abstract values of a sequence of slots.
pub open spec fn pairs(s: Seq<FooterSlotState>) -> Seq<(bool, Seq<Seq<char>>)> {
    Seq::new(s.len(), |i: int| s[i].pair())
}

/// The slots that compaction keeps: visible and holding panels.
pub open spec fn spec_kept(v: Seq<(bool, Seq<Seq<char>>)>) -> Seq<(bool, Seq<Seq<char>>)> {
    v.filter(|p: (bool, Seq<Seq<char>>)| p.0 && p.1.len() > 0)
}

/// Left-compaction: the kept slots in their relative order, then hidden
/// empty slots up to the strip's length.
pub open spec fn spec_compact(v: Seq<(bool, Seq<Seq<char>>)>) -> Seq<(bool, Seq<Seq<char>>)> {
    spec_kept(v) + Seq::new(
        (v.len() - spec_kept(v).len()) as nat,
        |i: int| (false, Seq::<Seq<char>>::empty()),
    )
}

/// A strip after a panel left slot `s`: its stack loses the panel, and a
/// slot emptied by the removal becomes hidden.
pub open spec fn spec_slot_removed(
    v: Seq<(bool, Seq<Seq<char>>)>,
    s: int,
    id: Seq<char>,
) -> Seq<(bool, Seq<Seq<char>>)> {
    let ids2 = v[s].1.remove_value(id);
    v.update(
        s,
        (
            if ids2.len() == 0 {
                false
            } else {
                v[s].0
            },
            ids2,
        ),
    )
}

/// What a completed drop leaves behind: nothing changes for a drop
/// outside the strip, onto a full stack of five, or onto the panel's own
/// slot; otherwise the panel moves out of its source slot, if any, into
/// the chosen half of the target stack, and the strip compacts.
pub open spec fn spec_after_footer_drop(
    o: FooterLayoutState,
    n: FooterLayoutState,
    id: Seq<char>,
    t: int,
    is_bottom: bool,
) -> bool {
    &&& n.fullscreen() == o.fullscreen()
    &&& (t >= 7 ==> n == o)
    &&& (0 <= t < 7 && o.slot_ids(t).len() >= 5 ==> n == o)
    &&& (0 <= t < 7 && o.slot_ids(t).len() < 5 && !o.in_slots(id) ==> n.slots_view()
        == spec_compact(spec_slot_inserted(o.slots_view(), t, id, is_bottom)))
    &&& forall|s: int|
        0 <= t < 7 && o.slot_ids(t).len() < 5 && 0 <= s < 7 && #[trigger] o.slot_ids(s).contains(
            id,
        ) ==> if s == t {
            n == o
        } else {
            n.slots_view() == spec_compact(
                spec_slot_inserted(spec_slot_removed(o.slots_view(), s, id), t, id, is_bottom),
            )
        }
}

/// A strip after a panel entered slot `t`: dropped on the bottom half it
/// goes under the stack, on the top half above it.
pub open spec fn spec_slot_inserted(
    v: Seq<(bool, Seq<Seq<char>>)>,
    t: int,
    id: Seq<char>,
    is_bottom: bool,
) -> Seq<(bool, Seq<Seq<char>>)> {
    let ids2 = if is_bottom {
        v[t].1.push(id)
    } else {
        v[t].1.insert(0, id)
    };
    v.update(t, (v[t].0, ids2))
}

/// Rectangle coordinates the hover test accepts: a generous screen-size
/// bound that keeps the midline arithmetic within `i64`.
pub open spec fn spec_rects_in_range(rects: Seq<Rect>) -> bool {
    forall|i: int|
        0 <= i < rects.len() ==> {
            &&& -0x4000_0000 <= (#[trigger] rects[i]).x <= 0x4000_0000
            &&& -0x4000_0000 <= rects[i].y <= 0x4000_0000
            &&& 0 <= rects[i].width <= 0x4000_0000
            &&& 0 <= rects[i].height <= 0x4000_0000
        }
}

/// Whether slot `i` accepts the hovered drop: shown, holding panels, not
/// the dragged panel's own slot, and its rectangle under the cursor.
pub open spec fn spec_hit_slot(
    v: Seq<(bool, Seq<Seq<char>>)>,
    rects: Seq<Rect>,
    cursor: Point,
    dragging: Seq<char>,
    i: int,
) -> bool {
    &&& v[i].0
    &&& v[i].1.len() > 0
    &&& !v[i].1.contains(dragging)
    &&& i < rects.len()
    &&& rects[i].spec_contains(cursor)
}

/// The first accepting slot at or after `i`, with the bottom-half flag.
pub open spec fn spec_drop_target_from(
    v: Seq<(bool, Seq<Seq<char>>)>,
    rects: Seq<Rect>,
    cursor: Point,
    dragging: Seq<char>,
    i: int,
) -> Option<(int, bool)>
    decreases 7 - i,
{
    if i >= 7 {
        None
    } else if spec_hit_slot(v, rects, cursor, dragging, i) {
        Some((i, cursor.y > rects[i].y + rects[i].height / 2))
    } else {
        spec_drop_target_from(v, rects, cursor, dragging, i + 1)
    }
}

/// The slot half a hovered drag points at, if any.
pub open spec fn spec_drop_target(
    v: Seq<(bool, Seq<Seq<char>>)>,
    rects: Seq<Rect>,
    cursor: Point,
    dragging: Seq<char>,
) -> Option<(int, bool)> {
    spec_drop_target_from(v, rects, cursor, dragging, 0)
}

/// Persistable state of the footer strip.
#[derive(Clone, Debug, PartialEq, Eq)]
pub struct FooterLayoutState {
    /// The seven slots, left to right.
    pub slots: Vec<FooterSlotState>,
    /// The fullscreen panel, if any.
    pub fullscreen_panel: Option<String>,
}

impl FooterLayoutState {
    /// The slots as pairs of visibility and stack.
    pub open spec fn slots_view(self) -> Seq<(bool, Seq<Seq<char>>)> {
        Seq::new(self.slots@.len(), |i: int| self.slots@[i].pair())
    }

    /// The stack of slot `i`.
    pub open spec fn slot_ids(self, i: int) -> Seq<Seq<char>> {
        self.slots@[i].ids()
    }

    /// The fullscreen token, if any.
    pub open spec fn fullscreen(self) -> Option<Seq<char>> {
        match self.fullscreen_panel {
            Some(p) => Some(p@),
            None => None,
        }
    }

    /// Whether some slot holds `id`.
    pub open spec fn in_slots(self, id: Seq<char>) -> bool {
        exists|i: int| 0 <= i < self.slots@.len() && #[trigger] self.slot_ids(i).contains(id)
    }

    /// Well-formedness: seven slots, stacks of at most five without
    /// duplicates, no token in two slots, and no visible empty slot.
    pub open spec fn wf(self) -> bool {
        &&& self.slots@.len() == 7
        &&& forall|i: int| 0 <= i < 7 ==> (#[trigger] self.slot_ids(i)).len() <= 5
        &&& forall|i: int|
            0 <= i < 7 ==> (self.slot_ids(i).len() == 0 ==> !(#[trigger] self.slots@[i]).visible)
        &&& forall|i: int| 0 <= i < 7 ==> (#[trigger] self.slot_ids(i)).no_duplicates()
        &&& forall|i: int, j: int, id: Seq<char>|
            0 <= i < j < 7 ==> !(#[trigger] self.slot_ids(i).contains(id)
                && #[trigger] self.slot_ids(j).contains(id))
    }

    /// Seven slots numbered `footer_panel_0` to `footer_panel_6`, one
    /// panel each, the first `count` of them shown.
    pub fn with_visible_count(count: usize) -> (r: Self)
        ensures
            r.wf(),
            r.slots_view() == Seq::new(
                7,
                |i: int| (i < count, seq![footer_panel_id_seq(i as nat)]),
            ),
            r.fullscreen() == None::<Seq<char>>,
    {
        let mut slots: Vec<FooterSlotState> = Vec::new();
        let mut i: usize = 0;
        while i < 7
            invariant
                i <= 7,
                slots@.len() == i,
                forall|k: int|
                    0 <= k < i ==> #[trigger] slots@[k].pair() == (
                        k < count,
                        seq![footer_panel_id_seq(k as nat)],
                    ),
            decreases 7 - i,
        {
            let mut ids: Vec<String> = Vec::new();
            ids.push(footer_panel_id_string(i));
            let slot = FooterSlotState { visible: i < count, panel_ids: ids };
            proof {
                assert(slot.ids() =~= seq![footer_panel_id_seq(i as nat)]);
            }
            slots.push(slot);
            i = i + 1;
        }
        let state = FooterLayoutState { slots, fullscreen_panel: None };
        proof {
            assert forall|k: int| 0 <= k < 7 implies #[trigger] state.slot_ids(k) == seq![
                footer_panel_id_seq(k as nat),
            ] && state.slots@[k].visible == (k < count) by {
                assert(state.slots@[k].pair() == (
                    k < count,
                    seq![footer_panel_id_seq(k as nat)],
                ));
            }
            assert(state.slots_view() =~= Seq::new(
                7,
                |i: int| (i < count, seq![footer_panel_id_seq(i as nat)]),
            ));
            assert forall|a: int, b: int, id: Seq<char>| 0 <= a < b < 7 implies !(#[trigger]
            state.slot_ids(a).contains(id) && #[trigger] state.slot_ids(b).contains(id)) by {
                if state.slot_ids(a).contains(id) && state.slot_ids(b).contains(id) {
                    crate::ids::lemma_numbered_id_injective("footer_panel_"@, a as nat, b as nat);
                }
            }
        }
        state
    }

    /// The first slot holding a panel, if any.
    pub fn find_panel_slot(&self, panel_id: &str) -> (r: Option<usize>)
        ensures
            match r {
                Some(s) => {
                    &&& 0 <= s < self.slots@.len()
                    &&& self.slot_ids(s as int).contains(panel_id@)
                    &&& forall|q: int| 0 <= q < s ==> !#[trigger] self.slot_ids(q).contains(
                        panel_id@,
                    )
                },
                None => !self.in_slots(panel_id@),
            },
    {
        let mut i: usize = 0;
        while i < self.slots.len()
            invariant
                i <= self.slots@.len(),
                forall|q: int| 0 <= q < i ==> !#[trigger] self.slot_ids(q).contains(panel_id@),
            decreases self.slots@.len() - i,
        {
            if holds_id(&self.slots[i].panel_ids, panel_id) {
                return Some(i);
            }
            i = i + 1;
        }
        None
    }

    /// Enters fullscreen for a panel, or leaves it when the panel is
    /// already the fullscreen one.
    pub fn toggle_fullscreen(&mut self, panel_id: &str)
        requires
            old(self).wf(),
        ensures
            final(self).wf(),
            final(self).slots_view() == old(self).slots_view(),
            final(self).fullscreen() == (if old(self).fullscreen() == Some(panel_id@) {
                None::<Seq<char>>
            } else {
                Some(panel_id@)
            }),
    {
        let clear: bool = match &self.fullscreen_panel {
            Some(m) => str_eq(m.as_str(), panel_id),
            None => false,
        };
        if clear {
            self.fullscreen_panel = None;
        } else {
            self.fullscreen_panel = Some(String::from_str(panel_id));
        }
        proof {
            assert(self.slots_view() =~= old(self).slots_view());
        }
    }

    /// Compacts the strip: slots that are visible and hold panels shift
    /// left to fill gaps, keeping their relative order; everything behind
    /// them becomes a hidden empty slot. Panels in hidden slots are
    /// discarded with their slot.
    pub fn compact_slots(&mut self)
        requires
            old(self).wf(),
        ensures
            final(self).wf(),
            final(self).slots_view() == spec_compact(old(self).slots_view()),
            final(self).fullscreen() == old(self).fullscreen(),
    {
        let ghost v = old(self).slots_view();
        let ghost pred = |p: (bool, Seq<Seq<char>>)| p.0 && p.1.len() > 0;
        let mut kept: Vec<FooterSlotState> = Vec::new();
        let ghost mut srcs: Seq<int> = Seq::empty();
        proof {
            reveal(Seq::filter);
            assert(v.subrange(0, 0) =~= Seq::<(bool, Seq<Seq<char>>)>::empty());
            assert(pairs(kept@) =~= spec_kept(v.subrange(0, 0)));
        }
        let mut i: usize = 0;
        while i < 7
            invariant
                *self == *old(self),
                i <= 7,
                pairs(kept@) == spec_kept(v.subrange(0, i as int)),
                srcs.len() == kept@.len(),
                forall|t: int| 0 <= t < srcs.len() ==> 0 <= #[trigger] srcs[t] < i,
                forall|t1: int, t2: int| 0 <= t1 < t2 < srcs.len() ==> srcs[t1] < srcs[t2],
                forall|t: int| 0 <= t < srcs.len() ==> #[trigger] kept@[t].pair() == v[srcs[t]],
            decreases 7 - i,
        {
            let ghost kept_pre = kept@;
            let s = &self.slots[i];
            proof {
                assert(s.pair() == v[i as int]);
            }
            if s.visible && s.panel_ids.len() > 0 {
                let dup = FooterSlotState { visible: s.visible, panel_ids: s.panel_ids.clone() };
                proof {
                    assert(dup.ids() =~= s.ids()) by {
                        assert forall|k: int|
                            0 <= k < dup.panel_ids@.len() implies dup.panel_ids@[k]@
                            == s.panel_ids@[k]@ by {
                            assert(vstd::pervasive::cloned(s.panel_ids@[k], dup.panel_ids@[k]));
                        }
                    }
                    assert(dup.pair() == v[i as int]);
                }
                kept.push(dup);
                proof {
                    srcs = srcs.push(i as int);
                    assert(pairs(kept@) =~= pairs(kept_pre).push(v[i as int]));
                }
            }
            proof {
                reveal(Seq::filter);
                let sub1 = v.subrange(0, i + 1 as int);
                assert(sub1.drop_last() =~= v.subrange(0, i as int));
                assert(sub1.last() == v[i as int]);
                assert(pairs(kept@) == spec_kept(sub1));
            }
            i = i + 1;
        }
        proof {
            assert(v.subrange(0, 7) =~= v);
            v.lemma_filter_len(pred);
        }
        let ghost srcs_frozen = srcs;
        let ghost kept_len = kept@.len() as int;
        while kept.len() < 7
            invariant
                *self == *old(self),
                kept_len == spec_kept(v).len(),
                kept_len <= kept@.len() <= 7,
                forall|t: int|
                    0 <= t < kept_len ==> #[trigger] kept@[t].pair() == spec_kept(v)[t],
                forall|t: int|
                    kept_len <= t < kept@.len() ==> #[trigger] kept@[t].pair() == (
                        false,
                        Seq::<Seq<char>>::empty(),
                    ),
                srcs_frozen.len() == kept_len,
                forall|t: int| 0 <= t < kept_len ==> 0 <= #[trigger] srcs_frozen[t] < 7,
                forall|t1: int, t2: int|
                    0 <= t1 < t2 < kept_len ==> srcs_frozen[t1] < srcs_frozen[t2],
                forall|t: int|
                    0 <= t < kept_len ==> #[trigger] kept@[t].pair() == v[srcs_frozen[t]],
            decreases 7 - kept@.len(),
        {
            let pad = FooterSlotState { visible: false, panel_ids: Vec::new() };
            proof {
                assert(pad.pair() == (false, Seq::<Seq<char>>::empty())) by {
                    assert(pad.ids() =~= Seq::<Seq<char>>::empty());
                }
            }
            kept.push(pad);
        }
        self.slots = kept;
        proof {
            lemma_compacted_wf(*old(self), *self, v, srcs_frozen, kept_len);
        }
    }

    /// Closes a panel: removes it from its slot, hides the slot if that
    /// emptied it, leaves fullscreen if the closed panel was fullscreen,
    /// and compacts. Closing an unknown panel only compacts.
    pub fn close_panel(&mut self, panel_id: &str)
        requires
            old(self).wf(),
        ensures
            final(self).wf(),
            final(self).fullscreen() == (if old(self).fullscreen() == Some(panel_id@) {
                None::<Seq<char>>
            } else {
                old(self).fullscreen()
            }),
            !old(self).in_slots(panel_id@) ==> final(self).slots_view() == spec_compact(
                old(self).slots_view(),
            ),
            forall|s: int|
                0 <= s < 7 && #[trigger] old(self).slot_ids(s).contains(panel_id@)
                    ==> final(self).slots_view() == spec_compact(
                    spec_slot_removed(old(self).slots_view(), s, panel_id@),
                ),
    {
        let ghost v = old(self).slots_view();
        let clear: bool = match &self.fullscreen_panel {
            Some(m) => str_eq(m.as_str(), panel_id),
            None => false,
        };
        if clear {
            self.fullscreen_panel = None;
        }
        match self.find_panel_slot(panel_id) {
            Some(s) => {
                let ghost pre = self.slots@;
                let mut slot = self.slots.remove(s);
                remove_first(&mut slot.panel_ids, panel_id);
                if slot.panel_ids.len() == 0 {
                    slot.visible = false;
                }
                self.slots.insert(s, slot);
                proof {
                    pre.remove_ensures(s as int);
                    pre.remove(s as int).insert_ensures(s as int, slot);
                    assert forall|k: int| 0 <= k < 7 implies self.slots@[k] == (if k == s as int {
                        slot
                    } else {
                        pre[k]
                    }) by {
                        if k > s as int {
                            assert(pre.remove(s as int)[k - 1] == pre[k]);
                        }
                    }
                    assert(self.slots_view() =~= spec_slot_removed(v, s as int, panel_id@)) by {
                        assert forall|k: int|
                            0 <= k < 7 implies #[trigger] self.slots_view()[k]
                            == spec_slot_removed(v, s as int, panel_id@)[k] by {
                            assert(self.slots_view()[k] == self.slots@[k].pair());
                            assert(v[k] == pre[k].pair());
                        }
                    }
                    lemma_slot_removed_wf(*old(self), *self, s as int, panel_id@);
                    assert forall|s2: int|
                        0 <= s2 < 7 && #[trigger] old(self).slot_ids(s2).contains(
                            panel_id@,
                        ) implies s2 == s as int by {
                        if s2 < s as int {
                            assert(!(old(self).slot_ids(s2).contains(panel_id@) && old(
                                self,
                            ).slot_ids(s as int).contains(panel_id@)));
                        } else if s2 > s as int {
                            assert(!(old(self).slot_ids(s as int).contains(panel_id@) && old(
                                self,
                            ).slot_ids(s2).contains(panel_id@)));
                        }
                    }
                }
                self.compact_slots();
            },
            None => {
                proof {
                    assert forall|s2: int| 0 <= s2 < 7 implies !#[trigger] old(self).slot_ids(
                        s2,
                    ).contains(panel_id@) by {
                        assert(old(self).slot_ids(s2) == self.slot_ids(s2));
                    }
                }
                self.compact_slots();
            },
        }
    }

    /// Completes a drop of a panel onto a slot half.
    ///
    /// A drop onto a full stack of five, onto the panel's own slot, or
    /// outside the strip changes nothing. Otherwise the panel leaves its
    /// source slot if it has one, joins the target stack at the top or
    /// bottom, and the strip compacts.
    pub fn handle_drop(&mut self, dragged_id: &str, target_idx: usize, is_bottom: bool)
        requires
            old(self).wf(),
        ensures
            final(self).wf(),
            spec_after_footer_drop(
                *old(self),
                *final(self),
                dragged_id@,
                target_idx as int,
                is_bottom,
            ),
    {
        let ghost v = old(self).slots_view();
        if target_idx >= self.slots.len() {
            return ;
        }
        if self.slots[target_idx].panel_ids.len() >= 5 {
            proof {
                assert(old(self).slot_ids(target_idx as int).len() >= 5);
            }
            return ;
        }
        let src = self.find_panel_slot(dragged_id);
        proof {
            if src is Some {
                let s0 = src->Some_0 as int;
                assert forall|s2: int|
                    0 <= s2 < 7 && #[trigger] self.slot_ids(s2).contains(
                        dragged_id@,
                    ) implies s2 == s0 by {
                    if s2 < s0 {
                        assert(!(self.slot_ids(s2).contains(dragged_id@) && self.slot_ids(
                            s0,
                        ).contains(dragged_id@)));
                    } else if s2 > s0 {
                        assert(!(self.slot_ids(s0).contains(dragged_id@) && self.slot_ids(
                            s2,
                        ).contains(dragged_id@)));
                    }
                }
            }
        }
        let ghost mid_view = v;
        if let Some(s) = src {
            if s == target_idx {
                return ;
            }
            let ghost pre = self.slots@;
            let mut slot = self.slots.remove(s);
            remove_first(&mut slot.panel_ids, dragged_id);
            if slot.panel_ids.len() == 0 {
                slot.visible = false;
            }
            self.slots.insert(s, slot);
            proof {
                pre.remove_ensures(s as int);
                pre.remove(s as int).insert_ensures(s as int, slot);
                assert forall|k: int| 0 <= k < 7 implies self.slots@[k] == (if k == s as int {
                    slot
                } else {
                    pre[k]
                }) by {
                    if k > s as int {
                        assert(pre.remove(s as int)[k - 1] == pre[k]);
                    }
                }
                assert(self.slots_view() =~= spec_slot_removed(v, s as int, dragged_id@)) by {
                    assert forall|k: int|
                        0 <= k < 7 implies #[trigger] self.slots_view()[k] == spec_slot_removed(
                        v,
                        s as int,
                        dragged_id@,
                    )[k] by {
                        assert(self.slots_view()[k] == self.slots@[k].pair());
                        assert(v[k] == pre[k].pair());
                    }
                }
                lemma_slot_removed_wf(*old(self), *self, s as int, dragged_id@);
                mid_view = self.slots_view();
            }
        }
        // the target stack is unchanged by the removal and still short
        let ghost pre2 = self.slots@;
        let mut target = self.slots.remove(target_idx);
        if is_bottom {
            target.panel_ids.push(String::from_str(dragged_id));
        } else {
            target.panel_ids.insert(0, String::from_str(dragged_id));
        }
        self.slots.insert(target_idx, target);
        proof {
            let t = target_idx as int;
            pre2.remove_ensures(t);
            pre2.remove(t).insert_ensures(t, target);
            assert forall|k: int| 0 <= k < 7 implies self.slots@[k] == (if k == t {
                target
            } else {
                pre2[k]
            }) by {
                if k > t {
                    assert(pre2.remove(t)[k - 1] == pre2[k]);
                }
            }
            assert(target.ids() =~= (if is_bottom {
                pre2[t].ids().push(dragged_id@)
            } else {
                pre2[t].ids().insert(0, dragged_id@)
            }));
            assert(self.slots_view() =~= spec_slot_inserted(mid_view, t, dragged_id@, is_bottom))
                by {
                assert forall|k: int|
                    0 <= k < 7 implies #[trigger] self.slots_view()[k] == spec_slot_inserted(
                    mid_view,
                    t,
                    dragged_id@,
                    is_bottom,
                )[k] by {
                    assert(self.slots_view()[k] == self.slots@[k].pair());
                    assert(mid_view[k] == pre2[k].pair());
                }
            }
            lemma_slot_inserted_wf(
                *old(self),
                *self,
                mid_view,
                (if src is Some {
                    Some(src->Some_0 as int)
                } else {
                    None
                }),
                t,
                dragged_id@,
                is_bottom,
            );
        }
        self.compact_slots();
    }

    /// The slot half under the cursor during a drag: the first shown,
    /// non-empty slot whose rectangle holds the cursor, skipping the slot
    /// that already stacks the dragged panel. Bottom half when the cursor
    /// sits below the slot's midline.
    pub fn find_drop_target(
        &self,
        cursor: Point,
        slot_rects: &Vec<Rect>,
        dragging_id: &str,
    ) -> (r: Option<(usize, bool)>)
        requires
            self.wf(),
            spec_rects_in_range(slot_rects@),
        ensures
            match r {
                Some((s, b)) => spec_drop_target(
                    self.slots_view(),
                    slot_rects@,
                    cursor,
                    dragging_id@,
                ) == Some((s as int, b)),
                None => spec_drop_target(
                    self.slots_view(),
                    slot_rects@,
                    cursor,
                    dragging_id@,
                ) is None,
            },
    {
        let ghost v = self.slots_view();
        let mut i: usize = 0;
        while i < 7
            invariant
                i <= 7,
                spec_drop_target(v, slot_rects@, cursor, dragging_id@) == spec_drop_target_from(
                    v,
                    slot_rects@,
                    cursor,
                    dragging_id@,
                    i as int,
                ),
            decreases 7 - i,
        {
            let slot = &self.slots[i];
            proof {
                assert(v[i as int] == self.slots@[i as int].pair());
            }
            let candidate = slot.visible && slot.panel_ids.len() > 0 && !holds_id(
                &slot.panel_ids,
                dragging_id,
            );
            if candidate && i < slot_rects.len() {
                let rect = slot_rects[i];
                proof {
                    assert(slot_rects@[i as int] == rect);
                }
                if rect.contains(cursor) {
                    let mid = rect.y + rect.height / 2;
                    let is_bottom = cursor.y > mid;
                    proof {
                        assert(spec_hit_slot(v, slot_rects@, cursor, dragging_id@, i as int));
                    }
                    return Some((i, is_bottom));
                }
            }
            proof {
                assert(!spec_hit_slot(v, slot_rects@, cursor, dragging_id@, i as int));
            }
            i = i + 1;
        }
        None
    }

    /// Whether the state satisfies the strip's invariants; used to vet
    /// states that arrive from outside, such as persisted snapshots.
    pub fn is_well_formed(&self) -> (r: bool)
        ensures
            r == self.wf(),
    {
        if self.slots.len() != 7 {
            return false;
        }
        let mut i: usize = 0;
        while i < 7
            invariant
                self.slots@.len() == 7,
                i <= 7,
                forall|k: int| 0 <= k < i ==> (#[trigger] self.slot_ids(k)).len() <= 5,
                forall|k: int|
                    0 <= k < i ==> (self.slot_ids(k).len() == 0 ==> !(#[trigger] self.slots@[k]).visible),
                forall|k: int| 0 <= k < i ==> (#[trigger] self.slot_ids(k)).no_duplicates(),
                forall|k1: int, k2: int, id: Seq<char>|
                    0 <= k1 < k2 < 7 && k1 < i ==> !(#[trigger] self.slot_ids(k1).contains(id)
                        && #[trigger] self.slot_ids(k2).contains(id)),
            decreases 7 - i,
        {
            let n = self.slots[i].panel_ids.len();
            if n > 5 {
                return false;
            }
            if n == 0 && self.slots[i].visible {
                return false;
            }
            let mut a: usize = 0;
            while a < n
                invariant
                    self.slots@.len() == 7,
                    i < 7,
                    n == self.slot_ids(i as int).len(),
                    a <= n,
                    forall|a1: int, a2: int|
                        0 <= a1 < a2 < n && a1 < a ==> #[trigger] self.slot_ids(i as int)[a1]
                            != #[trigger] self.slot_ids(i as int)[a2],
                decreases n - a,
            {
                let mut b: usize = a + 1;
                while b < n
                    invariant
                        self.slots@.len() == 7,
                        i < 7,
                        a < n == self.slot_ids(i as int).len(),
                        a < b <= n,
                        forall|a2: int|
                            a < a2 < b ==> self.slot_ids(i as int)[a as int] != #[trigger] self.slot_ids(
                                i as int,
                            )[a2],
                    decreases n - b,
                {
                    if str_eq(self.slots[i].panel_ids[a].as_str(), self.slots[i].panel_ids[b].as_str()) {
                        proof {
                            assert(self.slot_ids(i as int)[a as int] == self.slot_ids(
                                i as int,
                            )[b as int]);
                            assert(!self.slot_ids(i as int).no_duplicates());
                        }
                        return false;
                    }
                    b = b + 1;
                }
                a = a + 1;
            }
            let mut j: usize = i + 1;
            while j < 7
                invariant
                    self.slots@.len() == 7,
                    i < 7,
                    n == self.slot_ids(i as int).len(),
                    i < j <= 7,
                    forall|q: int, id: Seq<char>|
                        i < q < j ==> !(#[trigger] self.slot_ids(i as int).contains(id)
                            && #[trigger] self.slot_ids(q).contains(id)),
                decreases 7 - j,
            {
                let mut a: usize = 0;
                while a < n
                    invariant
                        self.slots@.len() == 7,
                        i < 7,
                        i < j < 7,
                        n == self.slot_ids(i as int).len(),
                        a <= n,
                        forall|a1: int|
                            0 <= a1 < a ==> !#[trigger] self.slot_ids(j as int).contains(
                                self.slot_ids(i as int)[a1],
                            ),
                    decreases n - a,
                {
                    if holds_id(&self.slots[j].panel_ids, self.slots[i].panel_ids[a].as_str()) {
                        proof {
                            assert(self.slot_ids(i as int).contains(self.slot_ids(i as int)[a as int]));
                        }
                        return false;
                    }
                    a = a + 1;
                }
                proof {
                    assert forall|id: Seq<char>|
                        !(#[trigger] self.slot_ids(i as int).contains(id) && self.slot_ids(
                            j as int,
                        ).contains(id)) by {
                        if self.slot_ids(i as int).contains(id) {
                            let a1 = choose|a1: int|
                                0 <= a1 < n && self.slot_ids(i as int)[a1] == id;
                            assert(!self.slot_ids(j as int).contains(
                                self.slot_ids(i as int)[a1],
                            ));
                        }
                    }
                }
                j = j + 1;
            }
            i = i + 1;
        }
        true
    }

    /// Shows the first `count` slots and hides the rest; a slot with no
    /// panels stays hidden.
    pub fn set_visible_panels(&mut self, count: usize)
        requires
            old(self).wf(),
        ensures
            final(self).wf(),
            final(self).slots_view().len() == 7,
            forall|i: int|
                0 <= i < 7 ==> #[trigger] final(self).slots_view()[i] == (
                    i < count && old(self).slot_ids(i).len() > 0,
                    old(self).slot_ids(i),
                ),
            final(self).fullscreen() == old(self).fullscreen(),
    {
        let mut i: usize = 0;
        while i < 7
            invariant
                self.slots@.len() == 7,
                i <= 7,
                forall|k: int|
                    0 <= k < i ==> #[trigger] self.slots@[k].pair() == (
                        k < count && old(self).slot_ids(k).len() > 0,
                        old(self).slot_ids(k),
                    ),
                forall|k: int| i <= k < 7 ==> #[trigger] self.slots@[k] == old(self).slots@[k],
                self.fullscreen_panel == old(self).fullscreen_panel,
            decreases 7 - i,
        {
            let ghost pre = self.slots@;
            let visible = i < count && self.slots[i].panel_ids.len() > 0;
            let mut slot = self.slots.remove(i);
            slot.visible = visible;
            self.slots.insert(i, slot);
            proof {
                pre.remove_ensures(i as int);
                pre.remove(i as int).insert_ensures(i as int, slot);
                assert forall|k: int| 0 <= k < 7 implies self.slots@[k] == (if k == i as int {
                    slot
                } else {
                    pre[k]
                }) by {
                    if k > i as int {
                        assert(pre.remove(i as int)[k - 1] == pre[k]);
                    }
                }
            }
            i = i + 1;
        }
        proof {
            assert forall|k: int| 0 <= k < 7 implies #[trigger] self.slot_ids(k) == old(
                self,
            ).slot_ids(k) && self.slots@[k].visible == (k < count && old(self).slot_ids(k).len()
                > 0) by {
                assert(self.slots@[k].pair() == (
                    k < count && old(self).slot_ids(k).len() > 0,
                    old(self).slot_ids(k),
                ));
            }
            assert forall|i: int, j: int, id: Seq<char>| 0 <= i < j < 7 implies !(#[trigger]
            self.slot_ids(i).contains(id) && #[trigger] self.slot_ids(j).contains(id)) by {
                assert(self.slot_ids(i) == old(self).slot_ids(i));
                assert(self.slot_ids(j) == old(self).slot_ids(j));
            }
        }
    }
}

impl Default for FooterLayoutState {
    /// Seven slots, one numbered panel each, all shown, no fullscreen.
    fn default() -> (r: Self)
        ensures
            r.wf(),
            r.slots_view() == Seq::new(
                7,
                |i: int| (true, seq![footer_panel_id_seq(i as nat)]),
            ),
            r.fullscreen() == None::<Seq<char>>,
    {
        let r = FooterLayoutState::with_visible_count(7);
        proof {
            assert(r.slots_view() =~= Seq::new(
                7,
                |i: int| (true, seq![footer_panel_id_seq(i as nat)]),
            ));
        }
        r
    }
}

/// Compaction is idempotent: compacting a strip that was just compacted
/// changes nothing.
pub proof fn lemma_compact_idempotent(v: Seq<(bool, Seq<Seq<char>>)>)
    ensures
        spec_compact(spec_compact(v)) == spec_compact(v),
{
    let pred = |p: (bool, Seq<Seq<char>>)| p.0 && p.1.len() > 0;
    let kept = spec_kept(v);
    v.lemma_filter_len(pred);
    let pad = Seq::new((v.len() - kept.len()) as nat, |i: int| (false, Seq::<Seq<char>>::empty()));
    assert(spec_compact(v) == kept + pad);
    Seq::filter_distributes_over_add(kept, pad, pred);
    assert forall|i: int| 0 <= i < kept.len() implies pred(#[trigger] kept[i]) by {
        Seq::lemma_filter_pred(v, pred, i);
    }
    crate::seq_facts::lemma_filter_all(kept, pred);
    assert forall|i: int| 0 <= i < pad.len() implies !pred(#[trigger] pad[i]) by {}
    crate::seq_facts::lemma_filter_none(pad, pred);
    assert(spec_kept(spec_compact(v)) == kept + Seq::<(bool, Seq<Seq<char>>)>::empty());
    assert(kept + Seq::<(bool, Seq<Seq<char>>)>::empty() =~= kept);
    assert(spec_compact(spec_compact(v)) =~= spec_compact(v));
}

/// What one of the five stacked display positions of a slot shows.
#[derive(Clone, Debug, PartialEq, Eq)]
pub struct FooterPanelDirective {
    /// Whether the position is shown.
    pub visible: bool,
    /// The panel bound to the position, when shown.
    pub panel_id: Option<String>,
    /// Whether the bound panel fills the whole strip.
    pub fullscreen: bool,
}

impl FooterPanelDirective {
    /// The directive's abstract value.
    pub open spec fn triple(self) -> (bool, Option<Seq<char>>, bool) {
        (
            self.visible,
            match self.panel_id {
                Some(p) => Some(p@),
                None => None,
            },
            self.fullscreen,
        )
    }
}

/// What one footer slot shows: the slot itself and its five stacked
/// positions, for the renderer to apply as given.
#[derive(Clone, Debug, PartialEq, Eq)]
pub struct FooterSlotDirective {
    /// Whether the slot is shown.
    pub visible: bool,
    /// The five stacked positions, top first.
    pub panels: Vec<FooterPanelDirective>,
}

/// Whether slot `i` is shown: in fullscreen mode only the slot stacking
/// the fullscreen panel, otherwise every visible slot that holds panels.
pub open spec fn spec_footer_slot_shown(state: FooterLayoutState, i: int) -> bool {
    match state.fullscreen() {
        Some(fs) => state.slot_ids(i).contains(fs),
        None => state.slots@[i].visible && state.slot_ids(i).len() > 0,
    }
}

/// What position `j` of slot `i` shows: in fullscreen mode the panel
/// alone at the top of its slot, otherwise the slot's stack in order.
pub open spec fn spec_footer_panel_triple(state: FooterLayoutState, i: int, j: int) -> (
    bool,
    Option<Seq<char>>,
    bool,
) {
    match state.fullscreen() {
        Some(fs) => if state.slot_ids(i).contains(fs) && j == 0 {
            (true, Some(fs), true)
        } else {
            (false, None::<Seq<char>>, false)
        },
        None => if state.slots@[i].visible && 0 <= j < state.slot_ids(i).len() && j < 5 {
            (true, Some(state.slot_ids(i)[j]), false)
        } else {
            (false, None::<Seq<char>>, false)
        },
    }
}

impl FooterLayoutState {
    /// The renderer directives derived from the strip: which of the seven
    /// slots are shown and what each of their five stacked positions
    /// binds. Never mutates the strip.
    pub fn compute_directives(&self) -> (r: Vec<FooterSlotDirective>)
        requires
            self.wf(),
        ensures
            r@.len() == 7,
            forall|i: int|
                0 <= i < 7 ==> (#[trigger] r@[i]).visible == spec_footer_slot_shown(*self, i),
            forall|i: int| 0 <= i < 7 ==> (#[trigger] r@[i]).panels@.len() == 5,
            forall|i: int, j: int|
                0 <= i < 7 && 0 <= j < 5 ==> (#[trigger] r@[i].panels@[j]).triple()
                    == spec_footer_panel_triple(*self, i, j),
    {
        let mut out: Vec<FooterSlotDirective> = Vec::new();
        let mut i: usize = 0;
        while i < 7
            invariant
                self.wf(),
                i <= 7,
                out@.len() == i,
                forall|k: int|
                    0 <= k < i ==> (#[trigger] out@[k]).visible == spec_footer_slot_shown(
                        *self,
                        k,
                    ),
                forall|k: int| 0 <= k < i ==> (#[trigger] out@[k]).panels@.len() == 5,
                forall|k: int, j: int|
                    0 <= k < i && 0 <= j < 5 ==> (#[trigger] out@[k].panels@[j]).triple()
                        == spec_footer_panel_triple(*self, k, j),
            decreases 7 - i,
        {
            let slot = &self.slots[i];
            let mut panels: Vec<FooterPanelDirective> = Vec::new();
            let shown: bool;
            match &self.fullscreen_panel {
                Some(fs) => {
                    let here = holds_id(&slot.panel_ids, fs.as_str());
                    shown = here;
                    let mut j: usize = 0;
                    while j < 5
                        invariant
                            0 <= i < 7,
                            self.wf(),
                            j <= 5,
                            panels@.len() == j,
                            self.fullscreen_panel == Some(*fs),
                            here == self.slot_ids(i as int).contains(fs@),
                            forall|q: int|
                                0 <= q < j ==> (#[trigger] panels@[q]).triple()
                                    == spec_footer_panel_triple(*self, i as int, q),
                        decreases 5 - j,
                    {
                        if here && j == 0 {
                            panels.push(
                                FooterPanelDirective {
                                    visible: true,
                                    panel_id: Some(fs.clone()),
                                    fullscreen: true,
                                },
                            );
                        } else {
                            panels.push(
                                FooterPanelDirective {
                                    visible: false,
                                    panel_id: None,
                                    fullscreen: false,
                                },
                            );
                        }
                        j = j + 1;
                    }
                },
                None => {
                    shown = slot.visible && slot.panel_ids.len() > 0;
                    let mut j: usize = 0;
                    while j < 5
                        invariant
                            0 <= i < 7,
                            self.wf(),
                            j <= 5,
                            panels@.len() == j,
                            self.fullscreen_panel is None,
                            forall|q: int|
                                0 <= q < j ==> (#[trigger] panels@[q]).triple()
                                    == spec_footer_panel_triple(*self, i as int, q),
                        decreases 5 - j,
                    {
                        if slot.visible && j < slot.panel_ids.len() {
                            let id: String = slot.panel_ids[j].clone();
                            proof {
                                assert(id@ == self.slot_ids(i as int)[j as int]);
                            }
                            panels.push(
                                FooterPanelDirective {
                                    visible: true,
                                    panel_id: Some(id),
                                    fullscreen: false,
                                },
                            );
                        } else {
                            panels.push(
                                FooterPanelDirective {
                                    visible: false,
                                    panel_id: None,
                                    fullscreen: false,
                                },
                            );
                        }
                        j = j + 1;
                    }
                },
            }
            out.push(FooterSlotDirective { visible: shown, panels });
            i = i + 1;
        }
        out
    }
}

/// The footer strip's drag-and-drop controller: the strip state plus the
/// transient drag bookkeeping. Pointer events arrive as plain values —
/// panel tokens, cursor points and slot rectangles — and every event
/// handler returns the controller to an idle drag state when the gesture
/// ends, so no drag can get stuck.
pub struct FooterGrid {
    /// Number of slots shown after a reset.
    initial_panels: usize,
    /// The strip state.
    layout: FooterLayoutState,
    /// The panel being dragged, while a drag is under way.
    dragging_panel: Option<String>,
    /// The slot half the drag last hovered over.
    drop_target: Option<(usize, bool)>,
}

impl FooterGrid {
    /// The strip state.
    pub closed spec fn state(self) -> FooterLayoutState {
        self.layout
    }

    /// The token being dragged, if a drag is under way.
    pub closed spec fn dragging(self) -> Option<Seq<char>> {
        match self.dragging_panel {
            Some(p) => Some(p@),
            None => None,
        }
    }

    /// The hovered drop target, if any.
    pub closed spec fn target(self) -> Option<(usize, bool)> {
        self.drop_target
    }

    /// The controller is well formed when its strip is.
    pub open spec fn wf(self) -> bool {
        self.state().wf()
    }

    /// A fresh controller: the numbered default slots with the first
    /// `initial_panels` shown, no drag under way.
    pub fn new(initial_panels: usize) -> (r: Self)
        ensures
            r.wf(),
            r.state().slots_view() == Seq::new(
                7,
                |i: int| (i < initial_panels, seq![footer_panel_id_seq(i as nat)]),
            ),
            r.state().fullscreen() == None::<Seq<char>>,
            r.dragging() is None,
            r.target() is None,
    {
        FooterGrid {
            initial_panels,
            layout: FooterLayoutState::with_visible_count(initial_panels),
            dragging_panel: None,
            drop_target: None,
        }
    }

    /// Returns to the freshly initialized strip and cancels any drag.
    pub fn reset_layout(&mut self)
        ensures
            final(self).wf(),
            final(self).state().slots_view() == Seq::new(
                7,
                |i: int| (i < old(self).initial_count(), seq![footer_panel_id_seq(i as nat)]),
            ),
            final(self).state().fullscreen() == None::<Seq<char>>,
            final(self).dragging() is None,
            final(self).target() is None,
            final(self).initial_count() == old(self).initial_count(),
    {
        self.layout = FooterLayoutState::with_visible_count(self.initial_panels);
        self.dragging_panel = None;
        self.drop_target = None;
    }

    /// The slot count a reset restores.
    pub closed spec fn initial_count(self) -> int {
        self.initial_panels as int
    }

    /// A copy of the strip state, for persistence.
    pub fn get_layout_state(&self) -> (r: FooterLayoutState)
        requires
            self.wf(),
        ensures
            r.wf(),
            r.slots_view() == self.state().slots_view(),
            r.fullscreen() == self.state().fullscreen(),
    {
        let mut slots: Vec<FooterSlotState> = Vec::new();
        let mut i: usize = 0;
        while i < 7
            invariant
                self.wf(),
                i <= 7,
                slots@.len() == i,
                forall|k: int|
                    0 <= k < i ==> (#[trigger] slots@[k]).pair()
                        == self.state().slots_view()[k],
            decreases 7 - i,
        {
            let s = &self.layout.slots[i];
            let dup = FooterSlotState { visible: s.visible, panel_ids: s.panel_ids.clone() };
            proof {
                assert(dup.ids() =~= s.ids()) by {
                    assert forall|k: int|
                        0 <= k < dup.panel_ids@.len() implies dup.panel_ids@[k]@
                        == s.panel_ids@[k]@ by {
                        assert(vstd::pervasive::cloned(s.panel_ids@[k], dup.panel_ids@[k]));
                    }
                }
                assert(self.state().slots_view()[i as int] == s.pair());
            }
            slots.push(dup);
            i = i + 1;
        }
        let fullscreen_panel: Option<String> = match &self.layout.fullscreen_panel {
            Some(p) => Some(p.clone()),
            None => None,
        };
        let r = FooterLayoutState { slots, fullscreen_panel };
        proof {
            assert(r.slots_view() =~= self.state().slots_view());
            lemma_same_view_footer_wf(self.state(), r);
        }
        r
    }

    /// Replaces the strip with a state from outside, a persisted snapshot
    /// for instance, after vetting it; an ill-formed state is refused and
    /// nothing changes.
    pub fn set_layout_state(&mut self, state: FooterLayoutState) -> (accepted: bool)
        ensures
            accepted == state.wf(),
            final(self).wf() == (accepted || old(self).wf()),
            accepted ==> final(self).state() == state,
            !accepted ==> *final(self) == *old(self),
            final(self).dragging() == old(self).dragging(),
            final(self).target() == old(self).target(),
    {
        if state.is_well_formed() {
            self.layout = state;
            true
        } else {
            false
        }
    }

    /// Closes a panel in the strip.
    pub fn close_panel(&mut self, panel_id: &str)
        requires
            old(self).wf(),
        ensures
            final(self).wf(),
            final(self).state().fullscreen() == (if old(self).state().fullscreen() == Some(
                panel_id@,
            ) {
                None::<Seq<char>>
            } else {
                old(self).state().fullscreen()
            }),
            !old(self).state().in_slots(panel_id@) ==> final(self).state().slots_view()
                == spec_compact(old(self).state().slots_view()),
            forall|s: int|
                0 <= s < 7 && #[trigger] old(self).state().slot_ids(s).contains(panel_id@)
                    ==> final(self).state().slots_view() == spec_compact(
                    spec_slot_removed(old(self).state().slots_view(), s, panel_id@),
                ),
            final(self).dragging() == old(self).dragging(),
    {
        self.layout.close_panel(panel_id);
    }

    /// Toggles fullscreen for a panel in the strip.
    pub fn toggle_fullscreen(&mut self, panel_id: &str)
        requires
            old(self).wf(),
        ensures
            final(self).wf(),
            final(self).state().slots_view() == old(self).state().slots_view(),
            final(self).state().fullscreen() == (if old(self).state().fullscreen() == Some(
                panel_id@,
            ) {
                None::<Seq<char>>
            } else {
                Some(panel_id@)
            }),
            final(self).dragging() == old(self).dragging(),
    {
        self.layout.toggle_fullscreen(panel_id);
    }

    /// Begins a drag of a panel the strip holds; an unknown panel leaves
    /// the controller idle.
    pub fn start_drag(&mut self, panel_id: &str)
        requires
            old(self).wf(),
        ensures
            final(self).wf(),
            final(self).state() == old(self).state(),
            final(self).dragging() == (if old(self).state().in_slots(panel_id@) {
                Some(panel_id@)
            } else {
                old(self).dragging()
            }),
            final(self).target() == old(self).target(),
    {
        match self.layout.find_panel_slot(panel_id) {
            Some(_) => {
                self.dragging_panel = Some(String::from_str(panel_id));
            },
            None => {
            },
        }
    }

    /// Updates the hovered drop target from the cursor and the slot
    /// rectangles; pure feedback, the strip itself never changes here.
    pub fn update_drop_target(&mut self, cursor: Point, slot_rects: &Vec<Rect>)
        requires
            old(self).wf(),
            spec_rects_in_range(slot_rects@),
        ensures
            final(self).wf(),
            final(self).state() == old(self).state(),
            final(self).dragging() == old(self).dragging(),
            final(self).target() == (match old(self).dragging() {
                None => None::<(usize, bool)>,
                Some(p) => match spec_drop_target(
                    old(self).state().slots_view(),
                    slot_rects@,
                    cursor,
                    p,
                ) {
                    Some((s, b)) => Some((s as usize, b)),
                    None => None,
                },
            }),
    {
        self.drop_target = None;
        let dragging = match &self.dragging_panel {
            Some(d) => Some(d.clone()),
            None => None,
        };
        if let Some(d) = dragging {
            self.drop_target = self.layout.find_drop_target(cursor, slot_rects, d.as_str());
        }
    }

    /// Ends a drag at the cursor: completes the drop when a target slot
    /// half is under the cursor, and in every case returns to the idle
    /// drag state, so a release over a dead zone simply cancels.
    pub fn end_drag(&mut self, cursor: Point, slot_rects: &Vec<Rect>)
        requires
            old(self).wf(),
            spec_rects_in_range(slot_rects@),
        ensures
            final(self).wf(),
            final(self).dragging() is None,
            final(self).target() is None,
            match old(self).dragging() {
                None => final(self).state() == old(self).state(),
                Some(p) => match spec_drop_target(
                    old(self).state().slots_view(),
                    slot_rects@,
                    cursor,
                    p,
                ) {
                    None => final(self).state() == old(self).state(),
                    Some((t, b)) => spec_after_footer_drop(
                        old(self).state(),
                        final(self).state(),
                        p,
                        t,
                        b,
                    ),
                },
            },
    {
        let dragging = match &self.dragging_panel {
            Some(d) => Some(d.clone()),
            None => None,
        };
        if let Some(d) = dragging {
            match self.layout.find_drop_target(cursor, slot_rects, d.as_str()) {
                Some((t, bottom)) => {
                    self.layout.handle_drop(d.as_str(), t, bottom);
                },
                None => {
                },
            }
        }
        self.dragging_panel = None;
        self.drop_target = None;
    }
}

/// The preview rectangle for a hovered slot half: the top or bottom half
/// of the slot's rectangle, or nothing while the slot has no extent.
pub fn get_slot_drop_rect(slot_rect: Rect, is_bottom: bool) -> (r: Option<Rect>)
    requires
        -0x4000_0000 <= slot_rect.x <= 0x4000_0000,
        -0x4000_0000 <= slot_rect.y <= 0x4000_0000,
        -0x4000_0000 <= slot_rect.width <= 0x4000_0000,
        -0x4000_0000 <= slot_rect.height <= 0x4000_0000,
    ensures
        r is Some <==> (slot_rect.width > 0 && slot_rect.height > 0),
        match r {
            Some(half) => {
                let half_height = slot_rect.height as int / 2;
                &&& half.x == slot_rect.x
                &&& half.y == (if is_bottom {
                    slot_rect.y + half_height
                } else {
                    slot_rect.y as int
                })
                &&& half.width == slot_rect.width
                &&& half.height == half_height
            },
            None => true,
        },
{
    if slot_rect.width <= 0 || slot_rect.height <= 0 {
        return None;
    }
    let half_height = slot_rect.height / 2;
    Some(
        Rect {
            x: slot_rect.x,
            y: if is_bottom {
                slot_rect.y + half_height
            } else {
                slot_rect.y
            },
            width: slot_rect.width,
            height: half_height,
        },
    )
}

/// A strip with the same slots and a fullscreen panel handled alike is
/// well formed whenever that one is.
proof fn lemma_same_view_footer_wf(o: FooterLayoutState, n: FooterLayoutState)
    requires
        o.wf(),
        n.slots_view() == o.slots_view(),
    ensures
        n.wf(),
{
    assert(n.slots_view().len() == n.slots@.len());
    assert(o.slots_view().len() == o.slots@.len());
    assert(n.slots@.len() == o.slots@.len());
    assert forall|k: int| 0 <= k < 7 implies #[trigger] n.slot_ids(k) == o.slot_ids(k)
        && n.slots@[k].visible == o.slots@[k].visible by {
        assert(n.slots@[k].pair() == n.slots_view()[k]);
        assert(o.slots@[k].pair() == o.slots_view()[k]);
    }
    assert forall|i: int, j: int, id: Seq<char>| 0 <= i < j < 7 implies !(#[trigger] n.slot_ids(
        i,
    ).contains(id) && #[trigger] n.slot_ids(j).contains(id)) by {
        assert(!(o.slot_ids(i).contains(id) && o.slot_ids(j).contains(id)));
    }
}

/// Removing a panel from the slot that holds it keeps the strip well
/// formed.
proof fn lemma_slot_removed_wf(o: FooterLayoutState, n: FooterLayoutState, s: int, id: Seq<char>)
    requires
        o.wf(),
        0 <= s < 7,
        o.slot_ids(s).contains(id),
        n.slots@.len() == 7,
        n.slots_view() == spec_slot_removed(o.slots_view(), s, id),
    ensures
        n.wf(),
        forall|k: int|
            0 <= k < 7 ==> #[trigger] n.slot_ids(k) == (if k == s {
                o.slot_ids(s).remove_value(id)
            } else {
                o.slot_ids(k)
            }),
{
    let v = o.slots_view();
    assert forall|k: int| 0 <= k < 7 implies #[trigger] v[k] == (
        o.slots@[k].visible,
        o.slot_ids(k),
    ) by {
        assert(v[k] == o.slots@[k].pair());
    }
    let ids2 = o.slot_ids(s).remove_value(id);
    assert forall|k: int| 0 <= k < 7 implies #[trigger] n.slot_ids(k) == (if k == s {
        ids2
    } else {
        o.slot_ids(k)
    }) && n.slots@[k].visible == (if k == s {
        if ids2.len() == 0 {
            false
        } else {
            o.slots@[s].visible
        }
    } else {
        o.slots@[k].visible
    }) by {
        assert(n.slots@[k].pair() == n.slots_view()[k]);
        assert(n.slots_view()[k] == spec_slot_removed(v, s, id)[k]);
    }
    o.slot_ids(s).index_of_first_ensures(id);
    lemma_remove_value_no_dup(o.slot_ids(s), id);
    assert forall|x: Seq<char>| #[trigger] ids2.contains(x) implies o.slot_ids(s).contains(x) by {
        lemma_remove_value_contains(o.slot_ids(s), id, x);
    }
    assert forall|t1: int, t2: int, x: Seq<char>| 0 <= t1 < t2 < 7 implies !(#[trigger]
    n.slot_ids(t1).contains(x) && #[trigger] n.slot_ids(t2).contains(x)) by {
        if n.slot_ids(t1).contains(x) && n.slot_ids(t2).contains(x) {
            assert(o.slot_ids(t1).contains(x) && o.slot_ids(t2).contains(x));
        }
    }
}

/// Inserting a panel into a short stack that does not already hold it
/// keeps the strip well formed.
proof fn lemma_slot_inserted_wf(
    o: FooterLayoutState,
    n: FooterLayoutState,
    mid_view: Seq<(bool, Seq<Seq<char>>)>,
    src: Option<int>,
    t: int,
    id: Seq<char>,
    is_bottom: bool,
)
    requires
        o.wf(),
        0 <= t < 7,
        o.slot_ids(t).len() < 5,
        match src {
            Some(s) => {
                &&& 0 <= s < 7
                &&& s != t
                &&& o.slot_ids(s).contains(id)
                &&& mid_view == spec_slot_removed(o.slots_view(), s, id)
            },
            None => {
                &&& !o.in_slots(id)
                &&& mid_view == o.slots_view()
            },
        },
        n.slots@.len() == 7,
        n.slots_view() == spec_slot_inserted(mid_view, t, id, is_bottom),
    ensures
        n.wf(),
{
    let v = o.slots_view();
    assert forall|k: int| 0 <= k < 7 implies #[trigger] v[k] == (
        o.slots@[k].visible,
        o.slot_ids(k),
    ) by {
        assert(v[k] == o.slots@[k].pair());
    }
    let mid_ids = |k: int|
        match src {
            Some(s) => if k == s {
                o.slot_ids(s).remove_value(id)
            } else {
                o.slot_ids(k)
            },
            None => o.slot_ids(k),
        };
    assert forall|k: int| 0 <= k < 7 implies #[trigger] mid_view[k].1 == mid_ids(k) by {}
    let tgt_ids = if is_bottom {
        mid_ids(t).push(id)
    } else {
        mid_ids(t).insert(0, id)
    };
    assert forall|k: int| 0 <= k < 7 implies #[trigger] n.slot_ids(k) == (if k == t {
        tgt_ids
    } else {
        mid_ids(k)
    }) && n.slots@[k].visible == (if k == t {
        mid_view[t].0
    } else {
        mid_view[k].0
    }) by {
        assert(n.slots@[k].pair() == n.slots_view()[k]);
        assert(n.slots_view()[k] == spec_slot_inserted(mid_view, t, id, is_bottom)[k]);
    }
    // membership of each slot after the drop
    if let Some(s) = src {
        o.slot_ids(s).index_of_first_ensures(id);
        lemma_remove_value_no_dup(o.slot_ids(s), id);
        assert forall|x: Seq<char>| #[trigger] mid_ids(s).contains(x) implies (o.slot_ids(
            s,
        ).contains(x) && x != id) by {
            lemma_remove_value_contains(o.slot_ids(s), id, x);
        }
    }
    assert(mid_ids(t) == o.slot_ids(t));
    assert(!o.slot_ids(t).contains(id)) by {
        match src {
            Some(s) => {
                if s < t {
                    assert(!(o.slot_ids(s).contains(id) && o.slot_ids(t).contains(id)));
                } else {
                    assert(!(o.slot_ids(t).contains(id) && o.slot_ids(s).contains(id)));
                }
            },
            None => {
            },
        }
    }
    assert(tgt_ids.no_duplicates() && tgt_ids.len() <= 5) by {
        if is_bottom {
            lemma_insert_no_dup(o.slot_ids(t), o.slot_ids(t).len() as int, id);
            assert(o.slot_ids(t).push(id) =~= o.slot_ids(t).insert(
                o.slot_ids(t).len() as int,
                id,
            ));
        } else {
            lemma_insert_no_dup(o.slot_ids(t), 0, id);
        }
    }
    assert forall|x: Seq<char>| #[trigger] tgt_ids.contains(x) implies (o.slot_ids(t).contains(x)
        || x == id) by {
        if is_bottom {
            assert(o.slot_ids(t).push(id) =~= o.slot_ids(t).insert(
                o.slot_ids(t).len() as int,
                id,
            ));
            lemma_insert_contains(o.slot_ids(t), o.slot_ids(t).len() as int, id, x);
        } else {
            lemma_insert_contains(o.slot_ids(t), 0, id, x);
        }
    }
    assert forall|t1: int, t2: int, x: Seq<char>| 0 <= t1 < t2 < 7 implies !(#[trigger]
    n.slot_ids(t1).contains(x) && #[trigger] n.slot_ids(t2).contains(x)) by {
        if n.slot_ids(t1).contains(x) && n.slot_ids(t2).contains(x) {
            if x == id {
                let other = if t1 == t {
                    t2
                } else {
                    t1
                };
                assert(n.slot_ids(other).contains(id));
                assert(mid_ids(other).contains(id));
                match src {
                    Some(s) => {
                        if other != s {
                            assert(o.slot_ids(other).contains(id));
                            if other < s {
                                assert(!(o.slot_ids(other).contains(id) && o.slot_ids(s).contains(
                                    id,
                                )));
                            } else if other > s {
                                assert(!(o.slot_ids(s).contains(id) && o.slot_ids(other).contains(
                                    id,
                                )));
                            } else {
                            }
                        }
                    },
                    None => {
                        assert(o.slot_ids(other).contains(id));
                    },
                }
            } else {
                assert(o.slot_ids(t1).contains(x) && o.slot_ids(t2).contains(x));
            }
        }
    }
}

/// A compacted strip is well formed and equal to the compaction of the
/// strip it came from.
proof fn lemma_compacted_wf(
    o: FooterLayoutState,
    n: FooterLayoutState,
    v: Seq<(bool, Seq<Seq<char>>)>,
    srcs: Seq<int>,
    kept_len: int,
)
    requires
        o.wf(),
        v == o.slots_view(),
        n.slots@.len() == 7,
        kept_len == spec_kept(v).len(),
        0 <= kept_len <= 7,
        forall|t: int| 0 <= t < kept_len ==> #[trigger] n.slots@[t].pair() == spec_kept(v)[t],
        forall|t: int| 0 <= t < kept_len ==> #[trigger] n.slots@[t].pair() == v[srcs[t]],
        forall|t: int|
            kept_len <= t < 7 ==> #[trigger] n.slots@[t].pair() == (
                false,
                Seq::<Seq<char>>::empty(),
            ),
        forall|t: int| 0 <= t < kept_len ==> 0 <= #[trigger] srcs[t] < 7,
        forall|t1: int, t2: int| 0 <= t1 < t2 < kept_len ==> srcs[t1] < srcs[t2],
    ensures
        n.wf(),
        n.slots_view() == spec_compact(v),
{
    let pred = |p: (bool, Seq<Seq<char>>)| p.0 && p.1.len() > 0;
    assert forall|j: int| 0 <= j < 7 implies #[trigger] v[j] == (
        o.slots@[j].visible,
        o.slot_ids(j),
    ) by {
        assert(v[j] == o.slots@[j].pair());
    }
    assert forall|t: int| 0 <= t < 7 implies #[trigger] n.slot_ids(t) == (if t < kept_len {
        o.slot_ids(srcs[t])
    } else {
        Seq::<Seq<char>>::empty()
    }) && n.slots@[t].visible == (if t < kept_len {
        o.slots@[srcs[t]].visible
    } else {
        false
    }) by {
        if t < kept_len {
            assert(n.slots@[t].pair() == v[srcs[t]]);
        } else {
            assert(n.slots@[t].pair() == (false, Seq::<Seq<char>>::empty()));
        }
    }
    assert forall|t1: int, t2: int, id: Seq<char>| 0 <= t1 < t2 < 7 implies !(#[trigger]
    n.slot_ids(t1).contains(id) && #[trigger] n.slot_ids(t2).contains(id)) by {
        if t2 < kept_len {
            assert(!(o.slot_ids(srcs[t1]).contains(id) && o.slot_ids(srcs[t2]).contains(id)));
        }
    }
    assert(n.slots_view() =~= spec_compact(v));
}

} // verus!
