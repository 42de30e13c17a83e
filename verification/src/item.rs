use vstd::prelude::*;

verus! {

/// Mathematical model of one task record: the id as an unbounded natural
/// number, the text as a sequence of characters, and the completion flag.
#[verifier::ext_equal]
pub ghost struct ItemModel {
    pub id: nat,
    pub text: Seq<char>,
    pub completed: bool,
}

/// One task record: a stable numeric id, free-form text, and a completion
/// flag.
#[derive(Debug)]
pub struct Item {
    pub id: usize,
    pub text: String,
    pub completed: bool,
}

impl View for Item {
    type V = ItemModel;

    open spec fn view(&self) -> ItemModel {
        ItemModel { id: self.id as nat, text: self.text@, completed: self.completed }
    }
}

impl Item {
    pub fn new(id: usize, text: &str, completed: bool) -> (r: Self)
        ensures
            r@ == (ItemModel { id: id as nat, text: text@, completed }),
    {
        Self { id, text: text.to_owned(), completed }
    }
}

impl Default for Item {
    /// The default item: id 0, empty text, not completed.
    fn default() -> (r: Self)
        ensures
            r@ == (ItemModel { id: 0, text: Seq::<char>::empty(), completed: false }),
    {
        proof {
            reveal_strlit("");
        }
        let r = Item::new(0, "", false);
        proof {
            assert(r@.text =~= Seq::<char>::empty());
        }
        r
    }
}

/// Ids are pairwise distinct.
pub open spec fn ids_unique(s: Seq<ItemModel>) -> bool {
    forall|i: int, j: int| 0 <= i < j < s.len() ==> s[i].id != s[j].id
}

/// The largest id among the items, or 0 when there are none.
pub open spec fn max_id(s: Seq<ItemModel>) -> nat
    decreases s.len(),
{
    if s.len() == 0 {
        0
    } else if s.drop_last().len() == 0 || s.last().id >= max_id(s.drop_last()) {
        s.last().id
    } else {
        max_id(s.drop_last())
    }
}

/// Every id in the collection is at most `max_id` of the collection.
pub proof fn lemma_max_id_ge(s: Seq<ItemModel>)
    ensures
        forall|k: int| 0 <= k < s.len() ==> #[trigger] s[k].id <= max_id(s),
    decreases s.len(),
{
    if s.len() > 0 {
        lemma_max_id_ge(s.drop_last());
        assert(forall|k: int| 0 <= k < s.len() - 1 ==> s[k] == s.drop_last()[k]);
    }
}

/// The collection after removing every item with the given id; the remaining
/// items keep their relative order.
pub open spec fn delete_in(s: Seq<ItemModel>, id: nat) -> Seq<ItemModel> {
    s.filter(|m: ItemModel| m.id != id)
}

/// The collection after toggling the completion flag of the item with the
/// given id; unchanged when no item has that id.
pub open spec fn toggle_in(s: Seq<ItemModel>, id: nat) -> Seq<ItemModel> {
    s.map_values(
        |m: ItemModel|
            if m.id == id {
                ItemModel { completed: !m.completed, ..m }
            } else {
                m
            },
    )
}

/// The collection after replacing the text of the item with the given id;
/// unchanged when no item has that id.
pub open spec fn update_text_in(s: Seq<ItemModel>, id: nat, text: Seq<char>) -> Seq<ItemModel> {
    s.map_values(
        |m: ItemModel|
            if m.id == id {
                ItemModel { text: text, ..m }
            } else {
                m
            },
    )
}

/// Toggling the same id twice restores the collection.
pub proof fn lemma_toggle_twice(s: Seq<ItemModel>, id: nat)
    ensures
        toggle_in(toggle_in(s, id), id) == s,
{
    assert(toggle_in(toggle_in(s, id), id) =~= s);
}

/// Reasons a stored collection is rejected when loading.
#[derive(Debug, Clone, Copy, PartialEq, Eq, Structural)]
pub enum StoreError {
    /// The text is not in the storage format the repository publishes.
    MalformedJson,
    /// A number in the stored text does not fit in `usize`.
    NumberTooLarge,
    /// Two stored items carry the same id.
    DuplicateId,
}

/// The in-memory collection of items, addressed by id, together with the
/// relative path of its backing file (`None` for a purely in-memory store).
///
/// The repository itself never touches the file system: a caller reads the
/// backing file and hands its text to `load_items`, and writes the text
/// `to_json` returns back to the file.
pub struct ItemRepository {
    items: Vec<Item>,
    file_path: Option<String>,
}

impl View for ItemRepository {
    type V = Seq<ItemModel>;

    closed spec fn view(&self) -> Seq<ItemModel> {
        self.items@.map_values(|it: Item| it@)
    }
}

impl ItemRepository {
    /// The relative path of the backing file, as the repository was created
    /// with it.
    pub closed spec fn path(&self) -> Option<Seq<char>> {
        match self.file_path {
            Some(p) => Some(p@),
            None => None,
        }
    }

    /// Ids are pairwise distinct among the live items.
    pub open spec fn wf(&self) -> bool {
        ids_unique(self@)
    }

    /// Creates an empty repository. The path, when given, is only recorded:
    /// loading stored content is a separate step, so construction itself
    /// cannot fail, and the result is always `Ok`.
    pub fn new(path: Option<&str>) -> (r: Result<Self, StoreError>)
        ensures
            r matches Ok(repo) && repo@ == Seq::<ItemModel>::empty() && repo.wf()
                && repo.path() == (match path {
                Some(p) => Some(p@),
                None => None::<Seq<char>>,
            }),
    {
        let file_path = match path {
            Some(p) => Some(p.to_owned()),
            None => None,
        };
        let repo = Self { items: Vec::new(), file_path };
        proof {
            assert(repo@ =~= Seq::<ItemModel>::empty());
        }
        Ok(repo)
    }

    /// Removes every item whose id equals the given one; the remaining items
    /// keep their ids and relative order. A miss leaves the collection
    /// unchanged.
    pub fn delete(&mut self, id: usize)
        ensures
            final(self)@ == delete_in(old(self)@, id as nat),
            final(self).path() == old(self).path(),
            old(self).wf() ==> final(self).wf(),
    {
        let ghost old_models = self@;
        let mut kept: Vec<Item> = Vec::new();
        let mut i: usize = 0;
        while i < self.items.len()
            invariant
                i <= self.items.len(),
                old_models == self.items@.map_values(|it: Item| it@),
                kept@.map_values(|it: Item| it@) == delete_in(
                    old_models.subrange(0, i as int),
                    id as nat,
                ),
            decreases self.items.len() - i,
        {
            let ghost prefix = old_models.subrange(0, i as int);
            let it = &self.items[i];
            let keep = it.id != id;
            if keep {
                let copy = Item::new(it.id, it.text.as_str(), it.completed);
                kept.push(copy);
            }
            proof {
                reveal(Seq::filter);
                let stepped = old_models.subrange(0, i as int + 1);
                assert(stepped.drop_last() =~= prefix);
                assert(stepped.last() == it@);
                if keep {
                    assert(delete_in(stepped, id as nat) == delete_in(prefix, id as nat).push(it@));
                    assert(kept@.map_values(|x: Item| x@) =~= delete_in(stepped, id as nat));
                } else {
                    assert(delete_in(stepped, id as nat) == delete_in(prefix, id as nat));
                }
            }
            i = i + 1;
        }
        proof {
            assert(old_models.subrange(0, old_models.len() as int) =~= old_models);
        }
        self.items = kept;
        proof {
            if ids_unique(old_models) {
                lemma_delete_in_unique(old_models, id as nat);
            }
        }
    }

    /// Flips the completion flag of the item with the given id; a miss leaves
    /// the collection unchanged.
    pub fn toggle(&mut self, id: usize)
        requires
            old(self).wf(),
        ensures
            final(self)@ == toggle_in(old(self)@, id as nat),
            final(self).path() == old(self).path(),
            final(self).wf(),
    {
        let ghost old_models = self@;
        let mut i: usize = 0;
        while i < self.items.len()
            invariant
                old(self).wf(),
                i <= self.items.len(),
                old_models == old(self)@,
                self.items@.map_values(|it: Item| it@) == old_models,
                self.file_path == old(self).file_path,
                forall|k: int| 0 <= k < i ==> old_models[k].id != id as nat,
            decreases self.items.len() - i,
        {
            if self.items[i].id == id {
                let text = self.items[i].text.as_str().to_owned();
                let completed = self.items[i].completed;
                self.items.set(i, Item::new(id, text.as_str(), !completed));
                proof {
                    let new_models = self.items@.map_values(|it: Item| it@);
                    let target = toggle_in(old_models, id as nat);
                    assert(old_models[i as int].id == id as nat);
                    assert forall|k: int| 0 <= k < old_models.len() implies new_models[k]
                        == target[k] by {
                        if k != i as int {
                            if k > i as int {
                                assert(old_models[i as int].id != old_models[k].id);
                            }
                        }
                    }
                    assert(new_models =~= target);
                }
                return ;
            }
            i = i + 1;
        }
        proof {
            assert(self.items@.map_values(|it: Item| it@) =~= toggle_in(old_models, id as nat));
        }
    }

    /// Replaces the text of the item with the given id; a miss leaves the
    /// collection unchanged.
    pub fn update_text(&mut self, id: usize, text: &str)
        requires
            old(self).wf(),
        ensures
            final(self)@ == update_text_in(old(self)@, id as nat, text@),
            final(self).path() == old(self).path(),
            final(self).wf(),
    {
        let ghost old_models = self@;
        let mut i: usize = 0;
        while i < self.items.len()
            invariant
                old(self).wf(),
                i <= self.items.len(),
                old_models == old(self)@,
                self.items@.map_values(|it: Item| it@) == old_models,
                self.file_path == old(self).file_path,
                forall|k: int| 0 <= k < i ==> old_models[k].id != id as nat,
            decreases self.items.len() - i,
        {
            if self.items[i].id == id {
                let completed = self.items[i].completed;
                self.items.set(i, Item::new(id, text, completed));
                proof {
                    let new_models = self.items@.map_values(|it: Item| it@);
                    let target = update_text_in(old_models, id as nat, text@);
                    assert(old_models[i as int].id == id as nat);
                    assert forall|k: int| 0 <= k < old_models.len() implies new_models[k]
                        == target[k] by {
                        if k != i as int {
                            if k > i as int {
                                assert(old_models[i as int].id != old_models[k].id);
                            }
                        }
                    }
                    assert(new_models =~= target);
                }
                return ;
            }
            i = i + 1;
        }
        proof {
            assert(self.items@.map_values(|it: Item| it@) =~= update_text_in(
                old_models,
                id as nat,
                text@,
            ));
        }
    }

    /// Appends a new, not-completed item under the next free id: one more
    /// than the largest live id, so 1 for an empty collection, and strictly
    /// greater than every existing id — ids are never reused.
    pub fn add(&mut self, text: &str)
        requires
            max_id(old(self)@) < usize::MAX,
        ensures
            final(self)@ == old(self)@.push(
                ItemModel { id: max_id(old(self)@) + 1, text: text@, completed: false },
            ),
            final(self).path() == old(self).path(),
            forall|k: int|
                0 <= k < old(self)@.len() ==> #[trigger] old(self)@[k].id < max_id(old(self)@) + 1,
            old(self)@.len() == 0 ==> max_id(old(self)@) + 1 == 1,
            old(self).wf() ==> final(self).wf(),
    {
        let ghost old_models = self@;
        let mut top: usize = 0;
        let mut i: usize = 0;
        while i < self.items.len()
            invariant
                i <= self.items.len(),
                old_models == self.items@.map_values(|it: Item| it@),
                max_id(old_models) < usize::MAX,
                top == max_id(old_models.subrange(0, i as int)),
                top <= max_id(old_models),
            decreases self.items.len() - i,
        {
            let ghost prefix = old_models.subrange(0, i as int);
            proof {
                assert(old_models.subrange(0, i + 1 as int).drop_last() =~= prefix);
                assert(old_models.subrange(0, i + 1 as int).last() == old_models[i as int]);
                lemma_max_id_prefix(old_models, i + 1 as int);
            }
            if self.items[i].id > top {
                top = self.items[i].id;
            }
            i = i + 1;
        }
        proof {
            assert(old_models.subrange(0, old_models.len() as int) =~= old_models);
            lemma_max_id_ge(old_models);
        }
        let new_id = top + 1;
        self.items.push(Item::new(new_id, text, false));
        proof {
            assert(self@ =~= old_models.push(
                ItemModel { id: max_id(old_models) + 1, text: text@, completed: false },
            ));
        }
    }

    /// The live items, in storage order.
    pub fn items(&self) -> (r: &Vec<Item>)
        ensures
            r@.map_values(|it: Item| it@) == self@,
    {
        &self.items
    }

    /// Writes the collection in the storage format, ready to be put in the
    /// backing file.
    pub fn to_json(&self) -> (r: String)
        ensures
            r@ == crate::codec::encode_items(self@),
    {
        crate::codec::items_to_json(&self.items)
    }

    /// Replaces the collection with the one the given text holds. The text
    /// must be in the storage format, every id must fit in `usize`, and ids
    /// must be pairwise distinct; each failure is reported as its own error,
    /// and on any error the collection is left unchanged.
    pub fn load_items(&mut self, json: &str) -> (r: Result<(), StoreError>)
        ensures
            final(self).path() == old(self).path(),
            (match crate::codec::scan_items(json@) {
                Some(ms) => {
                    if !crate::codec::ids_fit(ms) {
                        r matches Err(e) && e == StoreError::NumberTooLarge && final(self)@ == old(
                            self,
                        )@
                    } else if !ids_unique(ms) {
                        r matches Err(e) && e == StoreError::DuplicateId && final(self)@ == old(
                            self,
                        )@
                    } else {
                        r matches Ok(u) && final(self)@ == ms && final(self).wf()
                    }
                },
                None => r matches Err(e) && e == StoreError::MalformedJson && final(self)@ == old(
                    self,
                )@,
            }),
    {
        match crate::codec::items_from_json(json) {
            Ok(v) => {
                if ids_distinct(&v) {
                    self.items = v;
                    Ok(())
                } else {
                    Err(StoreError::DuplicateId)
                }
            },
            Err(e) => Err(e),
        }
    }


    /// Every id a repository actually holds fits in `usize`.
    pub proof fn lemma_ids_fit(&self)
        ensures
            crate::codec::ids_fit(self@),
    {
        assert forall|k: int| 0 <= k < self@.len() implies (#[trigger] self@[k]).id
            <= usize::MAX by {
            assert(self@[k] == self.items@[k]@);
        }
    }

    /// The recorded relative path of the backing file, if any.
    pub fn file_path(&self) -> (r: &Option<String>)
        ensures
            self.path() == (match r {
                Some(p) => Some(p@),
                None => None::<Seq<char>>,
            }),
    {
        &self.file_path
    }
}

/// Whether the ids of the given items are pairwise distinct.
fn ids_distinct(v: &Vec<Item>) -> (r: bool)
    ensures
        r == ids_unique(v@.map_values(|it: Item| it@)),
{
    let ghost models = v@.map_values(|it: Item| it@);
    let n = v.len();
    let mut i: usize = 0;
    while i < n
        invariant
            n == v.len(),
            models == v@.map_values(|it: Item| it@),
            i <= n,
            forall|a: int, b: int| 0 <= a < b < n && a < i ==> models[a].id != models[b].id,
        decreases n - i,
    {
        let mut j: usize = i + 1;
        while j < n
            invariant
                n == v.len(),
                models == v@.map_values(|it: Item| it@),
                i < j <= n || (i + 1 == j && j > n),
                i < n,
                forall|b: int| i < b < j ==> models[i as int].id != models[b].id,
            decreases n - j,
        {
            if v[i].id == v[j].id {
                proof {
                    assert(models[i as int].id == models[j as int].id);
                    assert(!ids_unique(models));
                }
                return false;
            }
            j = j + 1;
        }
        i = i + 1;
    }
    true
}

/// Removing an id from a collection with pairwise distinct ids keeps them
/// pairwise distinct; every remaining item was in the collection.
pub proof fn lemma_delete_in_unique(s: Seq<ItemModel>, id: nat)
    requires
        ids_unique(s),
    ensures
        ids_unique(delete_in(s, id)),
        forall|a: int|
            0 <= a < delete_in(s, id).len() ==> exists|k: int|
                0 <= k < s.len() && s[k] == #[trigger] delete_in(s, id)[a],
    decreases s.len(),
{
    reveal(Seq::filter);
    if s.len() > 0 {
        let rest = s.drop_last();
        assert(forall|k: int| 0 <= k < rest.len() ==> rest[k] == s[k]);
        lemma_delete_in_unique(rest, id);
        let f = delete_in(s, id);
        let fr = delete_in(rest, id);
        if s.last().id != id {
            assert(f == fr.push(s.last()));
            assert forall|a: int|
                0 <= a < f.len() implies exists|k: int| 0 <= k < s.len() && s[k] == #[trigger] f[a] by {
                if a < f.len() - 1 {
                    assert(f[a] == fr[a]);
                    let k = choose|k: int| 0 <= k < rest.len() && rest[k] == fr[a];
                    assert(s[k] == f[a]);
                } else {
                    assert(s[s.len() - 1] == f[a]);
                }
            }
            assert forall|a: int, b: int| 0 <= a < b < f.len() implies f[a].id != f[b].id by {
                if b < f.len() - 1 {
                    assert(f[a] == fr[a] && f[b] == fr[b]);
                } else {
                    assert(f[a] == fr[a]);
                    let k = choose|k: int| 0 <= k < rest.len() && rest[k] == fr[a];
                    assert(s[k] == fr[a]);
                    assert(s[k].id != s[s.len() - 1].id);
                }
            }
        } else {
            assert(f == fr);
        }
    }
}

/// After deleting an id no remaining item carries it, and deleting an id
/// that no item carries leaves the collection unchanged.
pub proof fn lemma_delete_gone(s: Seq<ItemModel>, id: nat)
    ensures
        forall|k: int|
            0 <= k < delete_in(s, id).len() ==> (#[trigger] delete_in(s, id)[k]).id != id,
        (forall|k: int| 0 <= k < s.len() ==> (#[trigger] s[k]).id != id) ==> delete_in(s, id) == s,
    decreases s.len(),
{
    reveal(Seq::filter);
    if s.len() == 0 {
        assert(delete_in(s, id) =~= s);
    } else {
        let rest = s.drop_last();
        assert(forall|k: int| 0 <= k < rest.len() ==> rest[k] == s[k]);
        lemma_delete_gone(rest, id);
        let f = delete_in(s, id);
        let fr = delete_in(rest, id);
        if s.last().id != id {
            assert(f == fr.push(s.last()));
            assert(forall|k: int| 0 <= k < f.len() - 1 ==> f[k] == fr[k]);
        } else {
            assert(f == fr);
        }
        if forall|k: int| 0 <= k < s.len() ==> (#[trigger] s[k]).id != id {
            assert(fr == rest);
            assert(f =~= s);
        }
    }
}


/// Round trip at the store level: the text `to_json` writes for this
/// repository reads back as exactly this collection, and every id in the
/// collection fits in `usize`. Together with the contract of `load_items`,
/// loading a published repository with distinct ids yields an equal one.
pub proof fn lemma_store_round_trip(repo: &ItemRepository)
    ensures
        crate::codec::scan_items(crate::codec::encode_items(repo@)) == Some(repo@),
        crate::codec::ids_fit(repo@),
{
    crate::codec::lemma_items_round_trip(repo@);
    repo.lemma_ids_fit();
}

/// `max_id` of a prefix never exceeds `max_id` of the whole collection.
pub proof fn lemma_max_id_prefix(s: Seq<ItemModel>, n: int)
    requires
        0 <= n <= s.len(),
    ensures
        max_id(s.subrange(0, n)) <= max_id(s),
    decreases s.len() - n,
{
    if n < s.len() {
        lemma_max_id_prefix(s, n + 1);
        assert(s.subrange(0, n + 1).drop_last() =~= s.subrange(0, n));
    } else {
        assert(s.subrange(0, n) =~= s);
    }
}

} // verus!
