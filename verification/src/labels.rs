use vstd::prelude::*;

use crate::errors::{ErrorView, RepositoryError};
use crate::store::{
    has_key, lemma_index_of_key, lemma_insert_pos_unique, lemma_store_insert, lemma_store_remove,
    sorted_by_key, store_insert, store_remove, Keyed,
};
use vstd::pervasive::VecAdditionalExecFns;

verus! {

/// A label: a store-assigned id and a name unique across labels.
#[derive(Debug, PartialEq, Eq)]
pub struct Label {
    pub id: i32,
    pub name: String,
}

/// Spec-level mirror of `Label`.
pub ghost struct LabelView {
    pub id: i32,
    pub name: Seq<char>,
}

impl View for Label {
    type V = LabelView;

    open spec fn view(&self) -> LabelView {
        LabelView { id: self.id, name: self.name@ }
    }
}

impl DeepView for Label {
    type V = LabelView;

    open spec fn deep_view(&self) -> LabelView {
        self.view()
    }
}

impl Keyed for LabelView {
    open spec fn key(&self) -> i32 {
        self.id
    }
}

impl Clone for Label {
    fn clone(&self) -> (res: Self)
        ensures
            res == *self,
    {
        Label { id: self.id, name: self.name.clone() }
    }
}

/// The first label in `ls` whose name is `name`, if any.
pub open spec fn find_by_name(ls: Seq<LabelView>, name: Seq<char>) -> Option<LabelView>
    decreases ls.len(),
{
    if ls.len() == 0 {
        None
    } else if ls[0].name == name {
        Some(ls[0])
    } else {
        find_by_name(ls.drop_first(), name)
    }
}

/// `find_by_name` returns the entry at the first index whose name matches,
/// and `None` exactly when no name matches.
pub proof fn lemma_find_by_name_none(ls: Seq<LabelView>, name: Seq<char>)
    requires
        forall|k: int| 0 <= k < ls.len() ==> ls[k].name != name,
    ensures
        find_by_name(ls, name) is None,
    decreases ls.len(),
{
    if ls.len() > 0 {
        let rest = ls.drop_first();
        assert(forall|k: int| 0 <= k < rest.len() ==> rest[k] == ls[k + 1]);
        lemma_find_by_name_none(rest, name);
    }
}

pub proof fn lemma_find_by_name_at(ls: Seq<LabelView>, name: Seq<char>, i: int)
    requires
        0 <= i < ls.len(),
        ls[i].name == name,
        forall|k: int| 0 <= k < i ==> ls[k].name != name,
    ensures
        find_by_name(ls, name) == Some(ls[i]),
    decreases ls.len(),
{
    if i > 0 {
        let rest = ls.drop_first();
        assert(forall|k: int| 0 <= k < rest.len() ==> rest[k] == ls[k + 1]);
        lemma_find_by_name_at(rest, name, i - 1);
    }
}

/// What `create` returns and what it leaves in the store: a `Duplicate`
/// failure naming the existing label when the name is taken, otherwise a
/// fresh label under id `len + 1`, written at its place in the store.
pub open spec fn spec_create_label(ls: Seq<LabelView>, name: Seq<char>) -> (Result<
    LabelView,
    ErrorView,
>, Seq<LabelView>) {
    match find_by_name(ls, name) {
        Some(existing) => (Err(ErrorView::Duplicate(existing.id)), ls),
        None => {
            let l = LabelView { id: (ls.len() + 1) as i32, name: name };
            (Ok(l), store_insert(ls, l))
        },
    }
}

/// What `delete` returns and what it leaves in the store: the store without
/// the label when the id is present, otherwise a `NotFound` failure.
pub open spec fn spec_delete_label(ls: Seq<LabelView>, id: i32) -> (Result<(), ErrorView>, Seq<
    LabelView,
>) {
    if has_key(ls, id) {
        (Ok(()), store_remove(ls, id))
    } else {
        (Err(ErrorView::NotFound(id)), ls)
    }
}

/// The decision the relational backend takes after probing for a label with
/// the requested name: an existing label makes the create a duplicate and
/// names the existing id.
pub fn ensure_name_free(existing: Option<&Label>) -> (r: Result<(), RepositoryError>)
    ensures
        match r {
            Ok(_) => existing is None,
            Err(e) => existing is Some && e@ == ErrorView::Duplicate(existing->0.id),
        },
{
    match existing {
        Some(l) => Err(RepositoryError::Duplicate(l.id)),
        None => Ok(()),
    }
}

/// The contract every label store backend must satisfy. The backend's state
/// is exposed through `labels()`: the stored labels in ascending id order,
/// which is also the order `all` returns.
pub trait LabelRepository: Sized {
    spec fn wf(&self) -> bool;

    spec fn labels(&self) -> Seq<LabelView>;

    /// Creates a label with a store-assigned id, rejecting a name that is
    /// already taken.
    fn create(&mut self, name: String) -> (r: Result<Label, RepositoryError>)
        requires
            old(self).wf(),
            old(self).labels().len() + 1 <= i32::MAX,
        ensures
            final(self).wf(),
            ({
                let (res, post) = spec_create_label(old(self).labels(), name@);
                &&& final(self).labels() == post
                &&& match r {
                    Ok(l) => res == Ok::<LabelView, ErrorView>(l@),
                    Err(e) => res == Err::<LabelView, ErrorView>(e@),
                }
            }),
    ;

    /// Every stored label, in ascending id order.
    fn all(&self) -> (r: Result<Vec<Label>, RepositoryError>)
        requires
            self.wf(),
        ensures
            ({
                match r {
                    Ok(ls) => ls.deep_view() == self.labels(),
                    Err(_) => false,
                }
            }),
    ;

    /// Removes the label with the given id; fails with `NotFound` when no
    /// label carries it.
    fn delete(&mut self, id: i32) -> (r: Result<(), RepositoryError>)
        requires
            old(self).wf(),
        ensures
            final(self).wf(),
            ({
                let (res, post) = spec_delete_label(old(self).labels(), id);
                &&& final(self).labels() == post
                &&& match r {
                    Ok(u) => res == Ok::<(), ErrorView>(u),
                    Err(e) => res == Err::<(), ErrorView>(e@),
                }
            }),
    ;
}

/// The in-memory backend: an owned vector kept in ascending id order.
#[derive(Debug)]
pub struct LabelRepositoryForMemory {
    labels: Vec<Label>,
}

impl LabelRepositoryForMemory {
    pub fn new() -> (r: Self)
        ensures
            r.wf(),
            r.labels() == Seq::<LabelView>::empty(),
    {
        let r = LabelRepositoryForMemory { labels: Vec::new() };
        proof {
            assert(r.labels.deep_view() =~= Seq::<LabelView>::empty());
        }
        r
    }
}

impl LabelRepository for LabelRepositoryForMemory {
    closed spec fn wf(&self) -> bool {
        sorted_by_key(self.labels.deep_view())
    }

    closed spec fn labels(&self) -> Seq<LabelView> {
        self.labels.deep_view()
    }

    fn create(&mut self, name: String) -> (r: Result<Label, RepositoryError>) {
        let ghost ls0 = self.labels.deep_view();
        // duplicate-name check: the first stored label with this name wins
        let mut i: usize = 0;
        while i < self.labels.len()
            invariant
                i <= self.labels.len(),
                self.labels.deep_view() == ls0,
                old(self).labels() == ls0,
                sorted_by_key(ls0),
                forall|k: int| 0 <= k < i ==> ls0[k].name != name@,
            decreases self.labels.len() - i,
        {
            if self.labels[i].name == name {
                proof {
                    lemma_find_by_name_at(ls0, name@, i as int);
                }
                return Err(RepositoryError::Duplicate(self.labels[i].id));
            }
            i += 1;
        }
        proof {
            lemma_find_by_name_none(ls0, name@);
        }
        let id = (self.labels.len() + 1) as i32;
        let label = Label { id, name };
        let result = label.clone();
        // place the new label at its sorted position
        let mut p: usize = 0;
        while p < self.labels.len() && self.labels[p].id < id
            invariant
                p <= self.labels.len(),
                self.labels.deep_view() == ls0,
                sorted_by_key(ls0),
                forall|k: int| 0 <= k < p ==> ls0[k].id < id,
            decreases self.labels.len() - p,
        {
            p += 1;
        }
        proof {
            lemma_insert_pos_unique(ls0, id, p as int);
            lemma_store_insert(ls0, label@);
        }
        if p < self.labels.len() && self.labels[p].id == id {
            self.labels.set(p, label);
            proof {
                assert(self.labels.deep_view() =~= ls0.update(p as int, result@));
            }
        } else {
            self.labels.insert(p, label);
            proof {
                ls0.insert_ensures(p as int, result@);
                assert(self.labels.deep_view() =~= ls0.insert(p as int, result@));
            }
        }
        Ok(result)
    }

    fn all(&self) -> (r: Result<Vec<Label>, RepositoryError>) {
        let ghost ls0 = self.labels.deep_view();
        let mut out: Vec<Label> = Vec::new();
        let mut i: usize = 0;
        while i < self.labels.len()
            invariant
                i <= self.labels.len(),
                self.labels.deep_view() == ls0,
                out.deep_view() =~= ls0.take(i as int),
            decreases self.labels.len() - i,
        {
            let ghost out0 = out.deep_view();
            out.push(self.labels[i].clone());
            proof {
                assert(forall|k: int| 0 <= k < out0.len() ==> out.deep_view()[k] == out0[k]);
                assert(out.deep_view()[out0.len() as int] == ls0[i as int]);
                assert(out.deep_view() =~= ls0.take(i + 1 as int));
            }
            i += 1;
        }
        proof {
            assert(out.deep_view() =~= ls0);
        }
        Ok(out)
    }

    fn delete(&mut self, id: i32) -> (r: Result<(), RepositoryError>) {
        let ghost ls0 = self.labels.deep_view();
        let mut i: usize = 0;
        while i < self.labels.len()
            invariant
                i <= self.labels.len(),
                self.labels.deep_view() == ls0,
                old(self).labels() == ls0,
                sorted_by_key(ls0),
                forall|k: int| 0 <= k < i ==> ls0[k].id != id,
            decreases self.labels.len() - i,
        {
            if self.labels[i].id == id {
                proof {
                    lemma_index_of_key(ls0, id, i as int);
                    lemma_store_remove(ls0, id);
                }
                self.labels.remove(i);
                proof {
                    ls0.remove_ensures(i as int);
                    assert(self.labels.deep_view() =~= ls0.remove(i as int));
                }
                return Ok(());
            }
            i += 1;
        }
        proof {
            assert(!has_key(ls0, id));
        }
        Err(RepositoryError::NotFound(id))
    }
}

} // verus!
