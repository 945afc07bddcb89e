//! Panel registry: the definitions of the panels an application offers.
//!
//! Each definition carries a stable semantic token, a display title and
//! capability flags. The registry keeps definitions in registration
//! order, one per token: registering a token again replaces its
//! definition in place.

use vstd::prelude::*;
use crate::ids::{
    dec_seq,
    dec_string,
    footer_panel_id_seq,
    footer_panel_id_string,
    panel_id_seq,
    panel_id_string,
    str_eq,
};

verus! {

/// Defines a panel type that can be instantiated in a grid.
#[derive(Clone, Debug, PartialEq, Eq)]
pub struct PanelDefinition {
    /// Unique semantic token for this panel.
    pub id: String,
    /// Display title for the panel header.
    pub title: String,
    /// Whether the panel can be closed.
    pub closable: bool,
    /// Whether the panel can be maximized, in the main grid.
    pub maximizable: bool,
    /// Whether the panel can go fullscreen, in the footer strip.
    pub fullscreenable: bool,
}

impl PanelDefinition {
    /// A new definition with the default capabilities: closable and
    /// maximizable, not fullscreenable.
    pub fn new(id: &str, title: &str) -> (r: Self)
        ensures
            r.id@ == id@,
            r.title@ == title@,
            r.closable,
            r.maximizable,
            !r.fullscreenable,
    {
        PanelDefinition {
            id: String::from_str(id),
            title: String::from_str(title),
            closable: true,
            maximizable: true,
            fullscreenable: false,
        }
    }

    /// The same definition with the closable flag set as given.
    pub fn with_closable(self, closable: bool) -> (r: Self)
        ensures
            r == (PanelDefinition { closable, ..self }),
    {
        PanelDefinition { closable, ..self }
    }

    /// The same definition with the maximizable flag set as given.
    pub fn with_maximizable(self, maximizable: bool) -> (r: Self)
        ensures
            r == (PanelDefinition { maximizable, ..self }),
    {
        PanelDefinition { maximizable, ..self }
    }

    /// The same definition with the fullscreenable flag set as given.
    pub fn with_fullscreenable(self, fullscreenable: bool) -> (r: Self)
        ensures
            r == (PanelDefinition { fullscreenable, ..self }),
    {
        PanelDefinition { fullscreenable, ..self }
    }

    /// A footer panel definition: closable and fullscreenable, not
    /// maximizable.
    pub fn footer(id: &str, title: &str) -> (r: Self)
        ensures
            r.id@ == id@,
            r.title@ == title@,
            r.closable,
            !r.maximizable,
            r.fullscreenable,
    {
        PanelDefinition {
            id: String::from_str(id),
            title: String::from_str(title),
            closable: true,
            maximizable: false,
            fullscreenable: true,
        }
    }

    /// A copy of the definition.
    fn duplicate(&self) -> (r: Self)
        ensures
            r == *self,
    {
        PanelDefinition {
            id: self.id.clone(),
            title: self.title.clone(),
            closable: self.closable,
            maximizable: self.maximizable,
            fullscreenable: self.fullscreenable,
        }
    }
}

/// One definition registered into a sequence: a token seen before has
/// its definition replaced in place, a new token goes to the end.
pub open spec fn spec_registered(
    s: Seq<PanelDefinition>,
    d: PanelDefinition,
) -> Seq<PanelDefinition> {
    let ids = Seq::new(s.len(), |i: int| s[i].id@);
    match ids.index_of_first(d.id@) {
        Some(t) => s.update(t, d),
        None => s.push(d),
    }
}

/// A batch of definitions registered in order.
pub open spec fn spec_registered_all(
    s: Seq<PanelDefinition>,
    ds: Seq<PanelDefinition>,
) -> Seq<PanelDefinition>
    decreases ds.len(),
{
    if ds.len() == 0 {
        s
    } else {
        spec_registered_all(spec_registered(s, ds[0]), ds.drop_first())
    }
}

/// Registry of panel definitions, in registration order.
#[derive(Clone, Debug, PartialEq, Eq)]
pub struct PanelRegistry {
    definitions: Vec<PanelDefinition>,
}

impl PanelRegistry {
    /// The definitions, in registration order.
    pub closed spec fn defs(self) -> Seq<PanelDefinition> {
        self.definitions@
    }

    /// The registered tokens, in registration order.
    pub open spec fn ids(self) -> Seq<Seq<char>> {
        Seq::new(self.defs().len(), |i: int| self.defs()[i].id@)
    }

    /// Each token is registered at most once.
    pub open spec fn wf(self) -> bool {
        self.ids().no_duplicates()
    }

    /// A new empty registry.
    pub fn new() -> (r: Self)
        ensures
            r.wf(),
            r.defs() == Seq::<PanelDefinition>::empty(),
    {
        let r = PanelRegistry { definitions: Vec::new() };
        proof {
            assert(r.ids() =~= Seq::<Seq<char>>::empty());
        }
        r
    }

    /// Position of the definition with the given token, if any.
    fn find_def(&self, id: &str) -> (r: Option<usize>)
        ensures
            match r {
                Some(t) => {
                    &&& 0 <= t < self.defs().len()
                    &&& self.ids()[t as int] == id@
                    &&& forall|q: int| 0 <= q < t ==> #[trigger] self.ids()[q] != id@
                },
                None => forall|q: int| 0 <= q < self.ids().len() ==> #[trigger] self.ids()[q]
                    != id@,
            },
    {
        let mut t: usize = 0;
        while t < self.definitions.len()
            invariant
                t <= self.defs().len(),
                forall|q: int| 0 <= q < t ==> #[trigger] self.ids()[q] != id@,
            decreases self.defs().len() - t,
        {
            if str_eq(self.definitions[t].id.as_str(), id) {
                proof {
                    assert(self.ids()[t as int] == id@);
                }
                return Some(t);
            }
            proof {
                assert(self.ids()[t as int] == self.defs()[t as int].id@);
            }
            t = t + 1;
        }
        None
    }

    /// Registers a definition: a token seen before has its definition
    /// replaced in place, a new token goes to the end.
    pub fn register(&mut self, def: PanelDefinition)
        requires
            old(self).wf(),
        ensures
            final(self).wf(),
            final(self).defs() == spec_registered(old(self).defs(), def),
            !old(self).ids().contains(def.id@) ==> final(self).defs() == old(self).defs().push(
                def,
            ),
            forall|t: int|
                0 <= t < old(self).defs().len() && #[trigger] old(self).ids()[t] == def.id@
                    ==> final(self).defs() == old(self).defs().update(t, def),
    {
        let ghost o = *self;
        proof {
            assert(Seq::new(o.defs().len(), |i: int| o.defs()[i].id@) =~= o.ids());
        }
        match self.find_def(def.id.as_str()) {
            Some(t) => {
                self.definitions.set(t, def);
                proof {
                    assert forall|q: int|
                        0 <= q < o.defs().len() && #[trigger] o.ids()[q] == def.id@ implies q
                        == t as int by {
                        if q != t as int {
                            if q < t as int {
                                assert(o.ids()[q] != def.id@);
                            } else {
                                assert(o.ids()[t as int] == def.id@ && o.ids()[q] == def.id@);
                            }
                        }
                    }
                    assert(self.ids() =~= o.ids().update(t as int, def.id@));
                    assert forall|a: int, b: int|
                        0 <= a < b < self.ids().len() implies self.ids()[a] != self.ids()[b] by {
                        if a != t as int && b != t as int {
                            assert(self.ids()[a] == o.ids()[a] && self.ids()[b] == o.ids()[b]);
                        } else if a == t as int {
                            assert(self.ids()[b] == o.ids()[b] && o.ids()[t as int] == def.id@);
                        } else {
                            assert(self.ids()[a] == o.ids()[a] && o.ids()[t as int] == def.id@);
                        }
                    }
                    assert(o.ids().contains(o.ids()[t as int]));
                    o.ids().index_of_first_ensures(def.id@);
                    assert(o.ids().index_of_first(def.id@) == Some(t as int)) by {
                        let k = o.ids().index_of_first(def.id@)->Some_0;
                        if k < t as int {
                            assert(o.ids()[k] == def.id@);
                        } else if k > t as int {
                            assert(o.ids()[t as int] != def.id@);
                        }
                    }
                }
            },
            None => {
                self.definitions.push(def);
                proof {
                    assert(self.ids() =~= o.ids().push(def.id@));
                    assert forall|a: int, b: int|
                        0 <= a < b < self.ids().len() implies self.ids()[a] != self.ids()[b] by {
                        if b == self.ids().len() - 1 {
                            assert(self.ids()[a] == o.ids()[a]);
                        } else {
                            assert(self.ids()[a] == o.ids()[a] && self.ids()[b] == o.ids()[b]);
                        }
                    }
                    if o.ids().contains(def.id@) {
                        let q = choose|q: int| 0 <= q < o.ids().len() && o.ids()[q] == def.id@;
                    }
                    o.ids().index_of_first_ensures(def.id@);
                }
            },
        }
    }

    /// Registers several definitions, in order.
    pub fn register_all(&mut self, defs: Vec<PanelDefinition>)
        requires
            old(self).wf(),
        ensures
            final(self).wf(),
            final(self).defs() == spec_registered_all(old(self).defs(), defs@),
    {
        let mut i: usize = 0;
        let n = defs.len();
        let ghost all = defs@;
        let mut rest = defs;
        while i < n
            invariant
                self.wf(),
                i <= n,
                rest@.len() == n - i,
                spec_registered_all(old(self).defs(), all) == spec_registered_all(
                    self.defs(),
                    rest@,
                ),
            decreases n - i,
        {
            let ghost rest_pre = rest@;
            let def = rest.remove(0);
            proof {
                assert(rest@ =~= rest_pre.drop_first());
            }
            self.register(def);
            i = i + 1;
        }
    }

    /// The definition registered under a token, if any.
    pub fn get(&self, id: &str) -> (r: Option<&PanelDefinition>)
        ensures
            match r {
                Some(d) => self.ids().contains(id@) && d.id@ == id@ && self.defs().contains(*d),
                None => !self.ids().contains(id@),
            },
    {
        match self.find_def(id) {
            Some(t) => {
                proof {
                    assert(self.defs()[t as int].id@ == id@);
                    assert(self.defs().contains(self.defs()[t as int]));
                }
                Some(&self.definitions[t])
            },
            None => {
                proof {
                    if self.ids().contains(id@) {
                        let q = choose|q: int|
                            0 <= q < self.ids().len() && self.ids()[q] == id@;
                    }
                }
                None
            },
        }
    }

    /// The registered tokens, in registration order, as owned strings.
    pub fn panel_ids(&self) -> (r: Vec<String>)
        ensures
            r.deep_view() == self.ids(),
    {
        let mut out: Vec<String> = Vec::new();
        let mut t: usize = 0;
        while t < self.definitions.len()
            invariant
                t <= self.defs().len(),
                out@.len() == t,
                forall|q: int| 0 <= q < t ==> #[trigger] out@[q]@ == self.ids()[q],
            decreases self.defs().len() - t,
        {
            out.push(self.definitions[t].id.clone());
            proof {
                assert(out@[t as int]@ == self.ids()[t as int]);
            }
            t = t + 1;
        }
        proof {
            assert(out.deep_view() =~= self.ids());
        }
        out
    }

    /// The definitions, in registration order, as owned values.
    pub fn panels(&self) -> (r: Vec<PanelDefinition>)
        ensures
            r@ == self.defs(),
    {
        let mut out: Vec<PanelDefinition> = Vec::new();
        let mut t: usize = 0;
        while t < self.definitions.len()
            invariant
                t <= self.defs().len(),
                out@.len() == t,
                forall|q: int| 0 <= q < t ==> #[trigger] out@[q] == self.defs()[q],
            decreases self.defs().len() - t,
        {
            out.push(self.definitions[t].duplicate());
            t = t + 1;
        }
        proof {
            assert(out@ =~= self.defs());
        }
        out
    }

    /// Number of registered panels.
    pub fn len(&self) -> (r: usize)
        ensures
            r == self.defs().len(),
    {
        self.definitions.len()
    }

    /// Whether the registry is empty.
    pub fn is_empty(&self) -> (r: bool)
        ensures
            r == (self.defs().len() == 0),
    {
        self.definitions.is_empty()
    }

    /// Removes the definition registered under a token and returns it;
    /// an unknown token changes nothing.
    pub fn remove(&mut self, id: &str) -> (r: Option<PanelDefinition>)
        requires
            old(self).wf(),
        ensures
            final(self).wf(),
            match r {
                Some(d) => {
                    &&& old(self).ids().contains(id@)
                    &&& d.id@ == id@
                    &&& forall|t: int|
                        0 <= t < old(self).defs().len() && #[trigger] old(self).ids()[t] == id@
                            ==> final(self).defs() == old(self).defs().remove(t) && d == old(
                            self,
                        ).defs()[t]
                },
                None => !old(self).ids().contains(id@) && *final(self) == *old(self),
            },
    {
        let ghost o = *self;
        match self.find_def(id) {
            Some(t) => {
                let d = self.definitions.remove(t);
                proof {
                    assert forall|q: int|
                        0 <= q < o.defs().len() && #[trigger] o.ids()[q] == id@ implies q
                        == t as int by {
                        if q < t as int {
                            assert(o.ids()[q] != id@);
                        } else if q > t as int {
                            assert(o.ids()[t as int] == id@ && o.ids()[q] == id@);
                        }
                    }
                    assert(o.ids().contains(o.ids()[t as int]));
                    assert(self.ids() =~= o.ids().remove(t as int));
                    crate::seq_facts::lemma_remove_value_no_dup(o.ids(), id@);
                    o.ids().index_of_first_ensures(id@);
                    assert(o.ids().index_of_first(id@) == Some(t as int)) by {
                        let k = o.ids().index_of_first(id@)->Some_0;
                        if k < t as int {
                            assert(o.ids()[k] == id@);
                        } else if k > t as int {
                            assert(o.ids()[t as int] != id@);
                        }
                    }
                }
                Some(d)
            },
            None => {
                proof {
                    if o.ids().contains(id@) {
                        let q = choose|q: int| 0 <= q < o.ids().len() && o.ids()[q] == id@;
                    }
                }
                None
            },
        }
    }

    /// Clears all definitions.
    pub fn clear(&mut self)
        ensures
            final(self).wf(),
            final(self).defs() == Seq::<PanelDefinition>::empty(),
    {
        self.definitions.clear();
        proof {
            assert(self.ids() =~= Seq::<Seq<char>>::empty());
        }
    }

    /// A registry of `count` numbered main-grid panels, `panel_N` titled
    /// `Panel N+1`.
    pub fn with_default_panels(count: usize) -> (r: Self)
        requires
            count < usize::MAX,
        ensures
            r.wf(),
            r.defs().len() == count,
            forall|i: int|
                0 <= i < count ==> {
                    let d = #[trigger] r.defs()[i];
                    &&& d.id@ == panel_id_seq(i as nat)
                    &&& d.title@ == "Panel "@ + dec_seq((i + 1) as nat)
                    &&& d.closable
                    &&& d.maximizable
                    &&& !d.fullscreenable
                },
    {
        let mut r = PanelRegistry { definitions: Vec::new() };
        let mut i: usize = 0;
        while i < count
            invariant
                i <= count,
                count < usize::MAX,
                r.defs().len() == i,
                forall|q: int|
                    0 <= q < i ==> {
                        let d = #[trigger] r.defs()[q];
                        &&& d.id@ == panel_id_seq(q as nat)
                        &&& d.title@ == "Panel "@ + dec_seq((q + 1) as nat)
                        &&& d.closable
                        &&& d.maximizable
                        &&& !d.fullscreenable
                    },
            decreases count - i,
        {
            let id = panel_id_string(i);
            let mut title = String::from_str("Panel ");
            let num = dec_string(i + 1);
            title.append(num.as_str());
            let def = PanelDefinition {
                id,
                title,
                closable: true,
                maximizable: true,
                fullscreenable: false,
            };
            r.definitions.push(def);
            i = i + 1;
        }
        proof {
            assert forall|a: int, b: int| 0 <= a < b < count implies r.ids()[a] != r.ids()[b] by {
                crate::ids::lemma_numbered_id_injective("panel_"@, a as nat, b as nat);
                assert(r.ids()[a] == panel_id_seq(a as nat));
                assert(r.ids()[b] == panel_id_seq(b as nat));
            }
        }
        r
    }

    /// A registry of `count` numbered footer panels, `footer_panel_N`
    /// titled `Footer N+1`.
    pub fn with_default_footer_panels(count: usize) -> (r: Self)
        requires
            count < usize::MAX,
        ensures
            r.wf(),
            r.defs().len() == count,
            forall|i: int|
                0 <= i < count ==> {
                    let d = #[trigger] r.defs()[i];
                    &&& d.id@ == footer_panel_id_seq(i as nat)
                    &&& d.title@ == "Footer "@ + dec_seq((i + 1) as nat)
                    &&& d.closable
                    &&& !d.maximizable
                    &&& d.fullscreenable
                },
    {
        let mut r = PanelRegistry { definitions: Vec::new() };
        let mut i: usize = 0;
        while i < count
            invariant
                i <= count,
                count < usize::MAX,
                r.defs().len() == i,
                forall|q: int|
                    0 <= q < i ==> {
                        let d = #[trigger] r.defs()[q];
                        &&& d.id@ == footer_panel_id_seq(q as nat)
                        &&& d.title@ == "Footer "@ + dec_seq((q + 1) as nat)
                        &&& d.closable
                        &&& !d.maximizable
                        &&& d.fullscreenable
                    },
            decreases count - i,
        {
            let id = footer_panel_id_string(i);
            let mut title = String::from_str("Footer ");
            let num = dec_string(i + 1);
            title.append(num.as_str());
            let def = PanelDefinition {
                id,
                title,
                closable: true,
                maximizable: false,
                fullscreenable: true,
            };
            r.definitions.push(def);
            i = i + 1;
        }
        proof {
            assert forall|a: int, b: int| 0 <= a < b < count implies r.ids()[a] != r.ids()[b] by {
                crate::ids::lemma_numbered_id_injective("footer_panel_"@, a as nat, b as nat);
                assert(r.ids()[a] == footer_panel_id_seq(a as nat));
                assert(r.ids()[b] == footer_panel_id_seq(b as nat));
            }
        }
        r
    }
}

impl Default for PanelRegistry {
    /// An empty registry.
    fn default() -> (r: Self)
        ensures
            r.wf(),
            r.defs() == Seq::<PanelDefinition>::empty(),
    {
        PanelRegistry::new()
    }
}

} // verus!
