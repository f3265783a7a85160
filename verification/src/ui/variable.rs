//! The variables of a function under edit: a store that hands out
//! identifiers in ascending order and keeps inputs and outputs apart.

use vstd::prelude::*;
use vstd::string::*;
use crate::logic::variable::{BitValue, VariableKind};

verus! {

/// The identifier of a variable. A store never hands out the same one twice.
#[derive(Clone, Copy, Debug, PartialEq, Eq, Hash, Structural)]
pub struct VariableId(u64);

impl VariableId {
    /// The number behind the identifier.
    pub closed spec fn number(self) -> u64 {
        self.0
    }

    /// The identifier with the given number.
    pub closed spec fn numbered(n: u64) -> VariableId {
        VariableId(n)
    }

    /// The number behind the identifier.
    pub fn value(&self) -> (n: u64)
        ensures
            n == self.number(),
    {
        self.0
    }

    /// An identifier is known by its number: the identifier with a given
    /// number has that number, and two identifiers are the same exactly when
    /// their numbers are.
    pub proof fn lemma_numbered(a: VariableId, b: VariableId, n: u64)
        ensures
            VariableId::numbered(n).number() == n,
            a == VariableId::numbered(a.number()),
            a == b <==> a.number() == b.number(),
    {
    }
}

/// A variable: what it is called, what it is set to, whether it is an input
/// or an output, and its identifier.
#[derive(Clone, Debug, PartialEq, Eq, Hash)]
pub struct Variable {
    pub name: String,
    pub value: BitValue,
    pub kind: VariableKind,
    pub id: VariableId,
}

/// What a variable holds.
#[verifier::ext_equal]
pub struct VariableView {
    pub name: Seq<char>,
    pub value: BitValue,
    pub kind: VariableKind,
    pub id: VariableId,
}

impl View for Variable {
    type V = VariableView;

    open spec fn view(&self) -> VariableView {
        VariableView { name: self.name@, value: self.value, kind: self.kind, id: self.id }
    }
}

/// A change to the variables of a store.
pub enum VariableEvent {
    Add { name: String, kind: VariableKind, value: BitValue },
    Remove(VariableId),
    Rename(VariableId, String),
}

/// What a change holds.
#[verifier::ext_equal]
pub enum VariableEventView {
    Add { name: Seq<char>, kind: VariableKind, value: BitValue },
    Remove(VariableId),
    Rename(VariableId, Seq<char>),
}

impl View for VariableEvent {
    type V = VariableEventView;

    open spec fn view(&self) -> VariableEventView {
        match *self {
            VariableEvent::Add { name, kind, value } => VariableEventView::Add {
                name: name@,
                kind,
                value,
            },
            VariableEvent::Remove(id) => VariableEventView::Remove(id),
            VariableEvent::Rename(id, name) => VariableEventView::Rename(id, name@),
        }
    }
}

/// The variables of a function: inputs and outputs, each list in the order
/// in which its variables were added.
#[derive(Debug)]
pub struct VariableStore {
    next_variable_id: u64,
    pub inputs: Vec<Variable>,
    pub outputs: Vec<Variable>,
}

/// What a store holds.
#[verifier::ext_equal]
pub struct StoreView {
    pub next_id: u64,
    pub inputs: Seq<VariableView>,
    pub outputs: Seq<VariableView>,
}

/// What a list of variables holds.
pub open spec fn views_of(v: Seq<Variable>) -> Seq<VariableView> {
    Seq::new(v.len(), |i: int| v[i]@)
}

impl View for VariableStore {
    type V = StoreView;

    closed spec fn view(&self) -> StoreView {
        StoreView {
            next_id: self.next_variable_id,
            inputs: views_of(self.inputs@),
            outputs: views_of(self.outputs@),
        }
    }
}

/// Whether `i` is the first place in `s` of a variable with the identifier
/// `id`.
pub open spec fn is_first(s: Seq<VariableView>, id: VariableId, i: int) -> bool {
    &&& 0 <= i < s.len()
    &&& s[i].id == id
    &&& forall|j: int| 0 <= j < i ==> (#[trigger] s[j]).id != id
}

/// Whether `s` holds a variable with the identifier `id`.
pub open spec fn has_id(s: Seq<VariableView>, id: VariableId) -> bool {
    exists|i: int| is_first(s, id, i)
}

/// The first place in `s` of a variable with the identifier `id`.
pub open spec fn first_index(s: Seq<VariableView>, id: VariableId) -> int {
    choose|i: int| is_first(s, id, i)
}

/// The variables of `s` but those with the identifier `id`.
pub open spec fn without_id(s: Seq<VariableView>, id: VariableId) -> Seq<VariableView> {
    s.filter(|v: VariableView| v.id != id)
}

/// There is one first place at most.
pub proof fn lemma_first_is_unique(s: Seq<VariableView>, id: VariableId, i: int)
    requires
        is_first(s, id, i),
    ensures
        has_id(s, id),
        first_index(s, id) == i,
{
    let k = first_index(s, id);
    assert(is_first(s, id, k));
    if k < i {
        assert(s[k].id != id);
    } else if i < k {
        assert(s[i].id != id);
    }
}

impl StoreView {
    /// Inputs first, then outputs: the order in which a variable is looked
    /// for.
    pub open spec fn all(self) -> Seq<VariableView> {
        self.inputs + self.outputs
    }

    /// The list in which variables of a kind are kept.
    pub open spec fn list(self, kind: VariableKind) -> Seq<VariableView> {
        match kind {
            VariableKind::Input => self.inputs,
            VariableKind::Output => self.outputs,
        }
    }

    /// The store with one of its two lists replaced.
    pub open spec fn with_list(self, kind: VariableKind, list: Seq<VariableView>) -> StoreView {
        match kind {
            VariableKind::Input => StoreView { inputs: list, ..self },
            VariableKind::Output => StoreView { outputs: list, ..self },
        }
    }

    /// The first variable with the identifier `id`, if there is one.
    pub open spec fn lookup(self, id: VariableId) -> Option<VariableView> {
        if has_id(self.all(), id) {
            Some(self.all()[first_index(self.all(), id)])
        } else {
            None
        }
    }

    /// Whether the store can hand out another identifier.
    pub open spec fn has_room(self) -> bool {
        self.next_id < u64::MAX
    }

    /// The store after a variable was added: it is the last of its kind and
    /// has the identifier that was next.
    pub open spec fn added(self, name: Seq<char>, kind: VariableKind, value: BitValue)
        -> StoreView {
        StoreView { next_id: (self.next_id + 1) as u64, ..self }.with_list(
            kind,
            self.list(kind).push(
                VariableView { name, value, kind, id: VariableId::numbered(self.next_id) },
            ),
        )
    }

    /// The store after the removal of `id`: where a variable has this
    /// identifier, the list that the first such variable belongs to by its
    /// kind loses every variable with the identifier.
    pub open spec fn removed(self, id: VariableId) -> StoreView {
        match self.lookup(id) {
            Some(v) => self.with_list(v.kind, without_id(self.list(v.kind), id)),
            None => self,
        }
    }

    /// The store with the variable at place `i`, counting inputs before
    /// outputs, replaced by `v`.
    pub open spec fn replaced(self, i: int, v: VariableView) -> StoreView {
        if i < self.inputs.len() {
            StoreView { inputs: self.inputs.update(i, v), ..self }
        } else {
            StoreView { outputs: self.outputs.update(i - self.inputs.len(), v), ..self }
        }
    }

    /// The store after the first variable with the identifier `id`, if there
    /// is one, was given a new name.
    pub open spec fn renamed(self, id: VariableId, name: Seq<char>) -> StoreView {
        if has_id(self.all(), id) {
            let i = first_index(self.all(), id);
            self.replaced(i, VariableView { name, ..self.all()[i] })
        } else {
            self
        }
    }
}

/// Whether no two variables of `s` have the same identifier.
pub open spec fn distinct_ids(s: Seq<VariableView>) -> bool {
    forall|i: int, j: int| 0 <= i < j < s.len() ==> (#[trigger] s[i]).id != (#[trigger] s[j]).id
}

/// Whether every variable of `s` has an identifier with a number below
/// `next`.
pub open spec fn ids_below(s: Seq<VariableView>, next: u64) -> bool {
    forall|i: int| 0 <= i < s.len() ==> (#[trigger] s[i]).id.number() < next
}

/// Whether every variable of `s` is of the kind `kind`.
pub open spec fn all_of_kind(s: Seq<VariableView>, kind: VariableKind) -> bool {
    forall|i: int| 0 <= i < s.len() ==> (#[trigger] s[i]).kind == kind
}

impl StoreView {
    /// The order that a store keeps while it is changed by its own
    /// operations alone: inputs are among the inputs and outputs among the
    /// outputs, no two variables share an identifier, and every identifier
    /// in use was handed out before.
    pub open spec fn wf(self) -> bool {
        &&& all_of_kind(self.inputs, VariableKind::Input)
        &&& all_of_kind(self.outputs, VariableKind::Output)
        &&& distinct_ids(self.all())
        &&& ids_below(self.all(), self.next_id)
    }
}

/// Among distinct identifiers, taking out the variables with one identifier
/// takes out one variable, or none where no variable has it.
pub proof fn lemma_without_id_of_distinct(s: Seq<VariableView>, id: VariableId)
    requires
        distinct_ids(s),
    ensures
        has_id(s, id) ==> without_id(s, id) == s.remove(first_index(s, id)),
        !has_id(s, id) ==> without_id(s, id) == s,
    decreases s.len(),
{
    reveal(Seq::filter);
    if s.len() > 0 {
        let t = s.drop_last();
        let x = s.last();
        assert(distinct_ids(t)) by {
            assert forall|i: int, j: int| 0 <= i < j < t.len() implies (#[trigger] t[i]).id != (
            #[trigger] t[j]).id by {
                assert(t[i] == s[i] && t[j] == s[j]);
            }
        }
        lemma_without_id_of_distinct(t, id);
        if has_id(t, id) {
            let k = first_index(t, id);
            assert(is_first(t, id, k));
            assert(s[k] == t[k]);
            assert(is_first(s, id, k)) by {
                assert forall|j: int| 0 <= j < k implies (#[trigger] s[j]).id != id by {
                    assert(s[j] == t[j]);
                }
            }
            lemma_first_is_unique(s, id, k);
            assert(x.id != id) by {
                assert(s[k].id != s[s.len() - 1].id);
            }
            assert(without_id(s, id) =~= s.remove(k));
        } else if x.id == id {
            assert forall|j: int| 0 <= j < s.len() - 1 implies (#[trigger] s[j]).id != id by {
                assert(s[j].id != s[s.len() - 1].id);
            }
            assert(is_first(s, id, s.len() - 1));
            lemma_first_is_unique(s, id, s.len() - 1);
            assert(without_id(s, id) =~= s.remove(s.len() - 1));
        } else {
            if has_id(s, id) {
                let k = first_index(s, id);
                assert(is_first(s, id, k));
                assert(t[k] == s[k]);
                assert(is_first(t, id, k)) by {
                    assert forall|j: int| 0 <= j < k implies (#[trigger] t[j]).id != id by {
                        assert(s[j] == t[j]);
                    }
                }
                assert(false);
            }
            assert(without_id(s, id) =~= s);
        }
    } else {
        if has_id(s, id) {
            assert(is_first(s, id, first_index(s, id)));
        }
    }
}

/// A store in order stays in order when a variable is added, and the
/// variable gets an identifier that no variable of the store has.
pub proof fn lemma_added_keeps_order(
    store: StoreView,
    name: Seq<char>,
    kind: VariableKind,
    value: BitValue,
)
    requires
        store.wf(),
        store.has_room(),
    ensures
        store.added(name, kind, value).wf(),
        !has_id(store.all(), VariableId::numbered(store.next_id)),
{
    let id = VariableId::numbered(store.next_id);
    let after = store.added(name, kind, value);
    let old_all = store.all();
    let new_all = after.all();
    let n = store.inputs.len() as int;
    if has_id(old_all, id) {
        let k = first_index(old_all, id);
        assert(is_first(old_all, id, k));
        assert(old_all[k].id.number() < store.next_id);
    }
    // Every variable of the new store is the new one or one of the old.
    let at = match kind {
        VariableKind::Input => n,
        VariableKind::Output => old_all.len() as int,
    };
    assert(new_all.len() == old_all.len() + 1);
    assert forall|i: int| 0 <= i < new_all.len() implies #[trigger] new_all[i] == (if i < at {
        old_all[i]
    } else if i == at {
        VariableView { name, value, kind, id }
    } else {
        old_all[i - 1]
    }) by {
        match kind {
            VariableKind::Input => {
                if i < n {
                    assert(new_all[i] == after.inputs[i]);
                } else if i == n {
                    assert(new_all[i] == after.inputs[i]);
                } else {
                    assert(new_all[i] == after.outputs[i - n - 1]);
                    assert(old_all[i - 1] == store.outputs[i - 1 - n]);
                }
            },
            VariableKind::Output => {
                if i < n {
                    assert(new_all[i] == after.inputs[i]);
                } else {
                    assert(new_all[i] == after.outputs[i - n]);
                }
            },
        }
    }
    assert(distinct_ids(new_all)) by {
        assert forall|i: int, j: int| 0 <= i < j < new_all.len() implies (#[trigger] new_all[i]).id
            != (#[trigger] new_all[j]).id by {
            let a = if i < at {
                i
            } else {
                i - 1
            };
            let b = if j < at {
                j
            } else {
                j - 1
            };
            if i != at && j != at {
                assert(old_all[a].id != old_all[b].id);
            } else if i == at {
                assert(old_all[b].id.number() < store.next_id);
            } else {
                assert(old_all[a].id.number() < store.next_id);
            }
        }
    }
    assert(ids_below(new_all, after.next_id)) by {
        assert forall|i: int| 0 <= i < new_all.len() implies (#[trigger] new_all[i]).id.number()
            < after.next_id by {
            if i < at {
                assert(old_all[i].id.number() < store.next_id);
            } else if i > at {
                assert(old_all[i - 1].id.number() < store.next_id);
            }
        }
    }
    assert(all_of_kind(after.inputs, VariableKind::Input)) by {
        assert forall|i: int| 0 <= i < after.inputs.len() implies (#[trigger] after.inputs[i]).kind
            == VariableKind::Input by {
            if i < n {
                assert(store.inputs[i].kind == VariableKind::Input);
            }
        }
    }
    assert(all_of_kind(after.outputs, VariableKind::Output)) by {
        assert forall|i: int| 0 <= i < after.outputs.len() implies (
        #[trigger] after.outputs[i]).kind == VariableKind::Output by {
            if i < store.outputs.len() {
                assert(store.outputs[i].kind == VariableKind::Output);
            }
        }
    }
}

/// A store in order stays in order when an identifier is removed; the one
/// variable that had the identifier is gone, and no other.
pub proof fn lemma_removed_keeps_order(store: StoreView, id: VariableId)
    requires
        store.wf(),
    ensures
        store.removed(id).wf(),
        !has_id(store.removed(id).all(), id),
        has_id(store.all(), id) ==> store.removed(id).all() == store.all().remove(
            first_index(store.all(), id),
        ),
        !has_id(store.all(), id) ==> store.removed(id) == store,
{
    let all = store.all();
    let n = store.inputs.len() as int;
    if has_id(all, id) {
        let k = first_index(all, id);
        assert(is_first(all, id, k));
        let v = all[k];
        let after = store.removed(id);
        assert(distinct_ids(store.inputs)) by {
            assert forall|i: int, j: int| 0 <= i < j < store.inputs.len() implies (
            #[trigger] store.inputs[i]).id != (#[trigger] store.inputs[j]).id by {
                assert(all[i] == store.inputs[i] && all[j] == store.inputs[j]);
            }
        }
        assert(distinct_ids(store.outputs)) by {
            assert forall|i: int, j: int| 0 <= i < j < store.outputs.len() implies (
            #[trigger] store.outputs[i]).id != (#[trigger] store.outputs[j]).id by {
                assert(all[n + i] == store.outputs[i] && all[n + j] == store.outputs[j]);
            }
        }
        if k < n {
            assert(v == store.inputs[k]);
            assert(v.kind == VariableKind::Input);
            assert(is_first(store.inputs, id, k)) by {
                assert forall|j: int| 0 <= j < k implies (#[trigger] store.inputs[j]).id != id by {
                    assert(all[j] == store.inputs[j]);
                }
            }
            lemma_first_is_unique(store.inputs, id, k);
            lemma_without_id_of_distinct(store.inputs, id);
            assert(after.inputs == store.inputs.remove(k));
            assert(after.all() =~= all.remove(k));
        } else {
            assert(v == store.outputs[k - n]);
            assert(v.kind == VariableKind::Output);
            assert(is_first(store.outputs, id, k - n)) by {
                assert forall|j: int| 0 <= j < k - n implies (#[trigger] store.outputs[j]).id
                    != id by {
                    assert(all[n + j] == store.outputs[j]);
                }
            }
            lemma_first_is_unique(store.outputs, id, k - n);
            lemma_without_id_of_distinct(store.outputs, id);
            assert(after.outputs == store.outputs.remove(k - n));
            assert(after.all() =~= all.remove(k));
        }
        let rest = after.all();
        assert forall|i: int| 0 <= i < rest.len() implies #[trigger] rest[i] == (if i < k {
            all[i]
        } else {
            all[i + 1]
        }) by {}
        assert(distinct_ids(rest)) by {
            assert forall|i: int, j: int| 0 <= i < j < rest.len() implies (#[trigger] rest[i]).id
                != (#[trigger] rest[j]).id by {
                let a = if i < k {
                    i
                } else {
                    i + 1
                };
                let b = if j < k {
                    j
                } else {
                    j + 1
                };
                assert(all[a].id != all[b].id);
            }
        }
        assert(ids_below(rest, after.next_id)) by {
            assert forall|i: int| 0 <= i < rest.len() implies (#[trigger] rest[i]).id.number()
                < after.next_id by {
                let a = if i < k {
                    i
                } else {
                    i + 1
                };
                assert(all[a].id.number() < store.next_id);
            }
        }
        assert(all_of_kind(after.inputs, VariableKind::Input)) by {
            assert forall|i: int| 0 <= i < after.inputs.len() implies (
            #[trigger] after.inputs[i]).kind == VariableKind::Input by {
                if k < n {
                    let a = if i < k {
                        i
                    } else {
                        i + 1
                    };
                    assert(store.inputs[a].kind == VariableKind::Input);
                } else {
                    assert(store.inputs[i].kind == VariableKind::Input);
                }
            }
        }
        assert(all_of_kind(after.outputs, VariableKind::Output)) by {
            assert forall|i: int| 0 <= i < after.outputs.len() implies (
            #[trigger] after.outputs[i]).kind == VariableKind::Output by {
                if k < n {
                    assert(store.outputs[i].kind == VariableKind::Output);
                } else {
                    let a = if i < k - n {
                        i
                    } else {
                        i + 1
                    };
                    assert(store.outputs[a].kind == VariableKind::Output);
                }
            }
        }
        if has_id(rest, id) {
            let j = first_index(rest, id);
            assert(is_first(rest, id, j));
            let a = if j < k {
                j
            } else {
                j + 1
            };
            assert(all[a].id == id);
            if a < k {
                assert(all[a].id != id);
            } else {
                assert(all[k].id != all[a].id);
            }
        }
    } else {
        if has_id(store.removed(id).all(), id) {
        }
    }
}

/// A store in order stays in order when a variable is renamed, and nothing
/// but the name of that variable changes.
pub proof fn lemma_renamed_keeps_order(store: StoreView, id: VariableId, name: Seq<char>)
    requires
        store.wf(),
    ensures
        store.renamed(id, name).wf(),
        store.renamed(id, name).all().len() == store.all().len(),
        forall|i: int|
            0 <= i < store.all().len() ==> (#[trigger] store.renamed(id, name).all()[i]) == (if
                store.all()[i].id == id {
                VariableView { name, ..store.all()[i] }
            } else {
                store.all()[i]
            }),
{
    let all = store.all();
    let n = store.inputs.len() as int;
    let after = store.renamed(id, name);
    if has_id(all, id) {
        let k = first_index(all, id);
        assert(is_first(all, id, k));
        let v = VariableView { name, ..all[k] };
        assert(after.all() =~= all.update(k, v)) by {
            if k < n {
                assert(all[k] == store.inputs[k]);
            } else {
                assert(all[k] == store.outputs[k - n]);
            }
        }
        let fresh = after.all();
        assert forall|i: int| 0 <= i < all.len() implies (#[trigger] fresh[i]) == (if all[i].id
            == id {
            VariableView { name, ..all[i] }
        } else {
            all[i]
        }) by {
            if i != k && all[i].id == id {
                if i < k {
                    assert(all[i].id != id);
                } else {
                    assert(all[k].id != all[i].id);
                }
            }
        }
        assert(distinct_ids(fresh)) by {
            assert forall|i: int, j: int| 0 <= i < j < fresh.len() implies (#[trigger] fresh[i]).id
                != (#[trigger] fresh[j]).id by {
                assert(all[i].id != all[j].id);
            }
        }
        assert(ids_below(fresh, after.next_id)) by {
            assert forall|i: int| 0 <= i < fresh.len() implies (#[trigger] fresh[i]).id.number()
                < after.next_id by {
                assert(all[i].id.number() < store.next_id);
            }
        }
        assert(all_of_kind(after.inputs, VariableKind::Input)) by {
            assert forall|i: int| 0 <= i < after.inputs.len() implies (
            #[trigger] after.inputs[i]).kind == VariableKind::Input by {
                assert(store.inputs[i].kind == VariableKind::Input);
            }
        }
        assert(all_of_kind(after.outputs, VariableKind::Output)) by {
            assert forall|i: int| 0 <= i < after.outputs.len() implies (
            #[trigger] after.outputs[i]).kind == VariableKind::Output by {
                assert(store.outputs[i].kind == VariableKind::Output);
            }
        }
    } else {
        assert forall|i: int| 0 <= i < all.len() implies all[i].id != id by {
            if all[i].id == id {
                lemma_some_is_first(all, id, i);
            }
        }
    }
}

/// Where a variable has the identifier, some variable is the first to have
/// it.
pub proof fn lemma_some_is_first(s: Seq<VariableView>, id: VariableId, i: int)
    requires
        0 <= i < s.len(),
        s[i].id == id,
    ensures
        has_id(s, id),
        first_index(s, id) <= i,
    decreases i,
{
    if exists|j: int| 0 <= j < i && (#[trigger] s[j]).id == id {
        let j = choose|j: int| 0 <= j < i && (#[trigger] s[j]).id == id;
        lemma_some_is_first(s, id, j);
    } else {
        assert(is_first(s, id, i));
        lemma_first_is_unique(s, id, i);
    }
}

/// The place of the first variable of `list` with the identifier `id`.
fn position(list: &Vec<Variable>, id: VariableId) -> (r: Option<usize>)
    ensures
        match r {
            Some(i) => is_first(views_of(list@), id, i as int),
            None => forall|j: int| 0 <= j < list@.len() ==> (#[trigger] list@[j]).id != id,
        },
{
    let mut i: usize = 0;
    while i < list.len()
        invariant
            i <= list@.len(),
            forall|j: int| 0 <= j < i ==> (#[trigger] list@[j]).id != id,
        decreases list@.len() - i,
    {
        if list[i].id == id {
            assert(forall|j: int| 0 <= j < i ==> (#[trigger] views_of(list@)[j]).id == list@[j].id);
            return Some(i);
        }
        i += 1;
    }
    None
}

/// Whether a variable has another identifier than `id`.
fn has_other_id(variable: &Variable, id: VariableId) -> (b: bool)
    ensures
        b == (variable@.id != id),
{
    variable.id != id
}

/// Filtering a list that grew by one keeps what it kept and adds the new
/// variable where it has another identifier.
proof fn lemma_without_id_step(s: Seq<VariableView>, id: VariableId, k: int)
    requires
        0 <= k < s.len(),
    ensures
        without_id(s.take(k + 1), id) == if s[k].id != id {
            without_id(s.take(k), id).push(s[k])
        } else {
            without_id(s.take(k), id)
        },
{
    reveal(Seq::filter);
    assert(s.take(k + 1).drop_last() =~= s.take(k));
    assert(s.take(k + 1).last() == s[k]);
}

/// Filtering an empty list leaves it empty.
proof fn lemma_without_id_of_none(id: VariableId)
    ensures
        without_id(Seq::<VariableView>::empty(), id) == Seq::<VariableView>::empty(),
{
    reveal(Seq::filter);
}

/// Takes every variable with the identifier `id` out of `list`.
fn discard(list: &mut Vec<Variable>, id: VariableId)
    ensures
        views_of(final(list)@) == without_id(views_of(old(list)@), id),
{
    let ghost before = views_of(list@);
    let ghost mut done: int = 0;
    let mut i: usize = 0;
    proof {
        lemma_without_id_of_none(id);
        assert(before.take(0) =~= Seq::<VariableView>::empty());
        assert(views_of(list@) =~= without_id(before.take(0), id) + before.skip(0));
    }
    while i < list.len()
        invariant
            0 <= done <= before.len(),
            i == without_id(before.take(done), id).len(),
            views_of(list@) == without_id(before.take(done), id) + before.skip(done),
        decreases before.len() - done,
    {
        proof {
            assert(views_of(list@)[i as int] == before[done]);
            assert(list@[i as int]@ == views_of(list@)[i as int]);
            lemma_without_id_step(before, id, done);
        }
        let ghost prev = views_of(list@);
        if has_other_id(&list[i], id) {
            proof {
                assert(views_of(list@) =~= without_id(before.take(done + 1), id) + before.skip(
                    done + 1,
                ));
            }
            i += 1;
        } else {
            list.remove(i);
            proof {
                assert(views_of(list@) =~= prev.remove(i as int));
                assert(views_of(list@) =~= without_id(before.take(done + 1), id) + before.skip(
                    done + 1,
                ));
            }
        }
        proof {
            done = done + 1;
        }
    }
    proof {
        assert(done == before.len()) by {
            assert(views_of(list@).len() == i + (before.len() - done));
        }
        assert(before.take(done) =~= before);
        assert(views_of(list@) =~= without_id(before, id));
    }
}

impl Default for VariableStore {
    /// An empty store, whose first identifier has the number 0.
    fn default() -> (store: VariableStore)
        ensures
            store@ == (StoreView { next_id: 0, inputs: Seq::empty(), outputs: Seq::empty() }),
            store@.wf(),
    {
        let store = VariableStore { next_variable_id: 0, inputs: Vec::new(), outputs: Vec::new() };
        assert(store@.inputs =~= Seq::empty());
        assert(store@.outputs =~= Seq::empty());
        store
    }
}

impl VariableStore {
    /// Whether the store can hand out `n` more identifiers.
    pub fn has_room_for(&self, n: usize) -> (b: bool)
        ensures
            b == (self@.next_id + n <= u64::MAX),
    {
        n as u64 <= u64::MAX - self.next_variable_id
    }

    /// Hands out the next identifier. Identifiers ascend: none is handed out
    /// twice, whatever is removed in between.
    pub fn next_variable_id(&mut self) -> (id: VariableId)
        requires
            old(self)@.has_room(),
        ensures
            id == VariableId::numbered(old(self)@.next_id),
            id.number() == old(self)@.next_id,
            final(self)@ == (StoreView { next_id: (old(self)@.next_id + 1) as u64, ..old(self)@ }),
            old(self)@.wf() ==> final(self)@.wf(),
    {
        let id = VariableId(self.next_variable_id);
        self.next_variable_id += 1;
        id
    }

    /// The list in which variables of a kind are kept.
    pub fn get_corresponding_vec(&self, kind: VariableKind) -> (list: &Vec<Variable>)
        ensures
            views_of(list@) == self@.list(kind),
    {
        match kind {
            VariableKind::Input => &self.inputs,
            VariableKind::Output => &self.outputs,
        }
    }

    /// The list in which variables of a kind are kept, to change it.
    pub fn get_corresponding_vec_mut(&mut self, kind: VariableKind) -> (list: &mut Vec<Variable>)
        ensures
            views_of(list@) == old(self)@.list(kind),
            final(self)@ =~~= old(self)@.with_list(kind, views_of(final(list)@)),
    {
        match kind {
            VariableKind::Input => &mut self.inputs,
            VariableKind::Output => &mut self.outputs,
        }
    }

    /// Adds a variable under a fresh identifier, as the last of its kind.
    pub fn add(&mut self, name: String, kind: VariableKind, value: BitValue)
        requires
            old(self)@.has_room(),
        ensures
            final(self)@ == old(self)@.added(name@, kind, value),
            old(self)@.wf() ==> final(self)@.wf(),
    {
        proof {
            if self@.wf() {
                lemma_added_keeps_order(self@, name@, kind, value);
            }
        }
        let id = self.next_variable_id();
        let vec = self.get_corresponding_vec_mut(kind);
        let ghost before = views_of(vec@);
        vec.push(Variable { id, name, kind, value });
        proof {
            assert(views_of(vec@) =~= before.push(
                VariableView { name: name@, value, kind, id },
            ));
        }
    }

    /// The first variable with the identifier `id`, inputs before outputs.
    pub fn get_variable_by_id(&self, id: VariableId) -> (found: Option<&Variable>)
        ensures
            match found {
                Some(v) => self@.lookup(id) == Some(v@),
                None => self@.lookup(id).is_none(),
            },
    {
        match position(&self.inputs, id) {
            Some(i) => {
                proof {
                    assert(is_first(self@.all(), id, i as int));
                    lemma_first_is_unique(self@.all(), id, i as int);
                }
                Some(&self.inputs[i])
            },
            None => match position(&self.outputs, id) {
                Some(j) => {
                    proof {
                        assert(is_first(self@.all(), id, self.inputs@.len() + j));
                        lemma_first_is_unique(self@.all(), id, self.inputs@.len() + j);
                    }
                    Some(&self.outputs[j])
                },
                None => {
                    proof {
                        if has_id(self@.all(), id) {
                            let k = first_index(self@.all(), id);
                            assert(is_first(self@.all(), id, k));
                            if k < self.inputs@.len() {
                                assert(self.inputs@[k].id != id);
                            } else {
                                assert(self.outputs@[k - self.inputs@.len()].id != id);
                            }
                        }
                    }
                    None
                },
            },
        }
    }

    /// The first variable with the identifier `id`, inputs before outputs, to
    /// change it.
    pub fn get_variable_by_id_mut(&mut self, id: VariableId) -> (found: Option<&mut Variable>)
        ensures
            match found {
                Some(v) => {
                    &&& has_id(old(self)@.all(), id)
                    &&& old(self)@.lookup(id) == Some(v@)
                    &&& final(self)@ =~~= old(self)@.replaced(
                        first_index(old(self)@.all(), id),
                        final(v)@,
                    )
                },
                None => old(self)@.lookup(id).is_none() && final(self)@ == old(self)@,
            },
    {
        let at = position(&self.inputs, id);
        if let Some(i) = at {
            proof {
                assert(is_first(self@.all(), id, i as int));
                lemma_first_is_unique(self@.all(), id, i as int);
            }
            return Some(&mut self.inputs[i]);
        }
        let at = position(&self.outputs, id);
        if let Some(j) = at {
            proof {
                assert(is_first(self@.all(), id, self.inputs@.len() + j));
                lemma_first_is_unique(self@.all(), id, self.inputs@.len() + j);
            }
            return Some(&mut self.outputs[j]);
        }
        proof {
            if has_id(self@.all(), id) {
                let k = first_index(self@.all(), id);
                assert(is_first(self@.all(), id, k));
                if k < self.inputs@.len() {
                    assert(self.inputs@[k].id != id);
                } else {
                    assert(self.outputs@[k - self.inputs@.len()].id != id);
                }
            }
        }
        None
    }

    /// Gives the variable with the identifier `id`, if there is one, a new
    /// name.
    pub fn rename(&mut self, id: VariableId, new_name: String)
        ensures
            final(self)@ == old(self)@.renamed(id, new_name@),
            old(self)@.wf() ==> final(self)@.wf(),
    {
        proof {
            if self@.wf() {
                lemma_renamed_keeps_order(self@, id, new_name@);
            }
        }
        if let Some(var) = self.get_variable_by_id_mut(id) {
            var.name = new_name;
        }
    }

    /// Removes the variable with the identifier `id`, if there is one.
    pub fn remove(&mut self, id: VariableId)
        ensures
            final(self)@ == old(self)@.removed(id),
            old(self)@.wf() ==> final(self)@.wf(),
    {
        proof {
            if self@.wf() {
                lemma_removed_keeps_order(self@, id);
            }
        }
        let kind = match self.get_variable_by_id(id) {
            Some(var) => Some(var.kind),
            None => None,
        };
        if let Some(kind) = kind {
            let vec = self.get_corresponding_vec_mut(kind);
            discard(vec, id);
        }
    }
}

} // verus!
