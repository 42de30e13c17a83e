use vstd::prelude::*;
use vstd::string::StringExecFns;

verus! {

/// Mathematical model of one prioritized task record.
#[verifier::ext_equal]
pub ghost struct TodoModel {
    pub text: Seq<char>,
    pub completed: bool,
    pub priority: nat,
}

/// One prioritized task record: free-form text, a completion flag, and a
/// priority where a smaller number sorts earlier.
#[derive(Debug)]
pub struct TodoItem {
    pub text: String,
    pub completed: bool,
    pub priority: usize,
}

impl View for TodoItem {
    type V = TodoModel;

    open spec fn view(&self) -> TodoModel {
        TodoModel { text: self.text@, completed: self.completed, priority: self.priority as nat }
    }
}

impl TodoItem {
    pub fn new(text: &str, completed: bool, priority: usize) -> (r: Self)
        ensures
            r@ == (TodoModel { text: text@, completed, priority: priority as nat }),
    {
        TodoItem { text: text.to_owned(), completed, priority }
    }

    /// Flips the completion flag; text and priority stay as they are.
    pub fn toggle_complete(&mut self)
        ensures
            final(self)@ == (TodoModel { completed: !old(self)@.completed, ..old(self)@ }),
    {
        self.completed = !self.completed;
    }
}

impl Default for TodoItem {
    /// The default item: empty text, not completed, priority 1 (the highest).
    fn default() -> (r: Self)
        ensures
            r@ == (TodoModel { text: Seq::<char>::empty(), completed: false, priority: 1 }),
    {
        proof {
            reveal_strlit("");
        }
        let r = TodoItem::new("", false, 1);
        proof {
            assert(r@.text =~= Seq::<char>::empty());
        }
        r
    }
}

/// The models of a sequence of items.
pub open spec fn todo_models(v: Seq<TodoItem>) -> Seq<TodoModel> {
    v.map_values(|it: TodoItem| it@)
}

/// Priorities never decrease along the collection (smaller numbers first).
pub open spec fn sorted_by_priority(s: Seq<TodoModel>) -> bool {
    forall|a: int, b: int| 0 <= a < b < s.len() ==> s[a].priority <= s[b].priority
}

/// The subsequence of items holding exactly the given priority, in order.
pub open spec fn with_priority(s: Seq<TodoModel>, p: nat) -> Seq<TodoModel>
    decreases s.len(),
{
    if s.len() == 0 {
        Seq::empty()
    } else {
        (if s[0].priority == p {
            seq![s[0]]
        } else {
            Seq::empty()
        }) + with_priority(s.drop_first(), p)
    }
}

/// `with_priority` distributes over concatenation.
pub proof fn lemma_with_priority_append(a: Seq<TodoModel>, b: Seq<TodoModel>, p: nat)
    ensures
        with_priority(a + b, p) == with_priority(a, p) + with_priority(b, p),
    decreases a.len(),
{
    if a.len() == 0 {
        assert(a + b =~= b);
        assert(with_priority(a, p) + with_priority(b, p) =~= with_priority(b, p));
    } else {
        lemma_with_priority_append(a.drop_first(), b, p);
        assert((a + b).drop_first() =~= a.drop_first() + b);
        assert((a + b)[0] == a[0]);
        let h = if a[0].priority == p {
            seq![a[0]]
        } else {
            Seq::<TodoModel>::empty()
        };
        assert(h + (with_priority(a.drop_first(), p) + with_priority(b, p)) =~= (h
            + with_priority(a.drop_first(), p)) + with_priority(b, p));
    }
}

/// A collection in which no item holds the priority contributes nothing.
pub proof fn lemma_with_priority_none(s: Seq<TodoModel>, p: nat)
    requires
        forall|k: int| 0 <= k < s.len() ==> (#[trigger] s[k]).priority != p,
    ensures
        with_priority(s, p) == Seq::<TodoModel>::empty(),
    decreases s.len(),
{
    if s.len() > 0 {
        assert(forall|k: int| 0 <= k < s.drop_first().len() ==> s.drop_first()[k] == s[k + 1]);
        lemma_with_priority_none(s.drop_first(), p);
        assert(s[0].priority != p);
        assert(with_priority(s, p) =~= Seq::<TodoModel>::empty());
    }
}

/// `with_priority` of a single item.
proof fn lemma_with_priority_single(x: TodoModel, p: nat)
    ensures
        with_priority(seq![x], p) == (if x.priority == p {
            seq![x]
        } else {
            Seq::<TodoModel>::empty()
        }),
{
    assert(seq![x].drop_first() =~= Seq::<TodoModel>::empty());
    assert(with_priority(Seq::<TodoModel>::empty(), p) == Seq::<TodoModel>::empty());
    if x.priority == p {
        assert(with_priority(seq![x], p) =~= seq![x]);
    } else {
        assert(with_priority(seq![x], p) =~= Seq::<TodoModel>::empty());
    }
}

/// Sorts the items by priority ascending, stably: items with equal priority
/// keep their relative order, so for every priority the subsequence holding
/// it is exactly the one of the input. The input is left as it is.
pub fn sort_by_priority(items: &Vec<TodoItem>) -> (r: Vec<TodoItem>)
    ensures
        r@.len() == items@.len(),
        sorted_by_priority(todo_models(r@)),
        forall|p: nat| #[trigger] with_priority(todo_models(r@), p) == with_priority(
            todo_models(items@),
            p,
        ),
{
    let ghost input = todo_models(items@);
    let mut r: Vec<TodoItem> = Vec::new();
    let mut k: usize = 0;
    proof {
        assert(todo_models(r@) =~= Seq::<TodoModel>::empty());
        assert(input.take(0) =~= Seq::<TodoModel>::empty());
    }
    while k < items.len()
        invariant
            k <= items.len(),
            input == todo_models(items@),
            r@.len() == k,
            sorted_by_priority(todo_models(r@)),
            forall|p: nat| #[trigger] with_priority(todo_models(r@), p) == with_priority(
                input.take(k as int),
                p,
            ),
        decreases items.len() - k,
    {
        let ghost rm = todo_models(r@);
        let x = TodoItem::new(items[k].text.as_str(), items[k].completed, items[k].priority);
        let ghost xm = x@;
        proof {
            assert(xm == input[k as int]);
        }
        let mut idx: usize = 0;
        while idx < r.len() && r[idx].priority <= x.priority
            invariant
                idx <= r.len(),
                rm == todo_models(r@),
                xm == x@,
                forall|a: int| 0 <= a < idx ==> (#[trigger] rm[a]).priority <= xm.priority,
            decreases r.len() - idx,
        {
            proof {
                assert(rm[idx as int] == r@[idx as int]@);
            }
            idx = idx + 1;
        }
        proof {
            if idx < r@.len() {
                assert(rm[idx as int].priority > xm.priority);
            }
        }
        r.insert(idx, x);
        proof {
            let t1 = rm.take(idx as int);
            let t2 = rm.skip(idx as int);
            let nm = todo_models(r@);
            assert(nm =~= t1 + seq![xm] + t2);
            assert(t1 + t2 =~= rm);
            // everything from idx on is strictly above the new priority
            assert forall|a: int| 0 <= a < t2.len() implies (#[trigger] t2[a]).priority
                > xm.priority by {
                assert(t2[a] == rm[idx + a]);
                if idx + a > idx {
                    assert(rm[idx as int].priority <= rm[idx + a].priority);
                }
            }
            // sortedness
            assert forall|a: int, b: int| 0 <= a < b < nm.len() implies nm[a].priority
                <= nm[b].priority by {
                let la: TodoModel = if a < idx {
                    rm[a]
                } else if a == idx {
                    xm
                } else {
                    rm[a - 1]
                };
                let lb: TodoModel = if b < idx {
                    rm[b]
                } else if b == idx {
                    xm
                } else {
                    rm[b - 1]
                };
                assert(nm[a] == la);
                assert(nm[b] == lb);
            }
            // stability
            assert(input.take(k as int + 1) =~= input.take(k as int) + seq![xm]);
            assert forall|p: nat| #[trigger] with_priority(nm, p) == with_priority(
                input.take(k as int + 1),
                p,
            ) by {
                lemma_with_priority_append(t1 + seq![xm], t2, p);
                lemma_with_priority_append(t1, seq![xm], p);
                lemma_with_priority_append(t1, t2, p);
                lemma_with_priority_append(input.take(k as int), seq![xm], p);
                lemma_with_priority_single(xm, p);
                if p == xm.priority {
                    lemma_with_priority_none(t2, p);
                    assert(with_priority(nm, p) =~= with_priority(input.take(k as int + 1), p));
                } else {
                    assert(with_priority(nm, p) =~= with_priority(input.take(k as int + 1), p));
                }
            }
        }
        k = k + 1;
    }
    proof {
        assert(input.take(items@.len() as int) =~= input);
    }
    r
}


/// Every priority a vector of items actually holds fits in `usize`, so by
/// the codec's round-trip lemma the text written for it reads back as
/// exactly these items.
pub proof fn lemma_todo_round_trip(v: Seq<TodoItem>)
    ensures
        crate::codec::scan_todos(crate::codec::encode_todos(todo_models(v))) == Some(
            todo_models(v),
        ),
        crate::codec::prios_fit(todo_models(v)),
{
    crate::codec::lemma_todos_round_trip(todo_models(v));
    assert forall|k: int| 0 <= k < todo_models(v).len() implies (#[trigger] todo_models(v)[k]).priority
        <= usize::MAX by {
        assert(todo_models(v)[k] == v[k]@);
    }
}


/// Replaces the priority of the item at the given position; text and
/// completion stay, and a position beyond the collection changes nothing.
/// In this variant items carry no explicit id, so they are addressed by
/// their position in the stored order.
pub fn set_priority(items: &mut Vec<TodoItem>, index: usize, priority: usize)
    ensures
        final(items)@.len() == old(items)@.len(),
        forall|k: int|
            0 <= k < old(items)@.len() && k != index ==> final(items)@[k] == old(items)@[k],
        index < old(items)@.len() ==> final(items)@[index as int]@ == (TodoModel {
            priority: priority as nat,
            ..old(items)@[index as int]@
        }),
{
    if index < items.len() {
        let completed = items[index].completed;
        let replacement = TodoItem::new(items[index].text.as_str(), completed, priority);
        items.set(index, replacement);
    }
}

/// The location of the backing file: the fixed name `.todos` under the given
/// home directory.
pub fn get_todo_file_path(home: &str) -> (r: String)
    ensures
        r@ == home@ + "/"@ + ".todos"@,
{
    let mut s = home.to_owned();
    s.append("/");
    s.append(".todos");
    s
}

} // verus!
