//! The order catalog: orders with a unique string id, a due date and an
//! ordered list of box weights. The catalog keeps its orders sorted by the
//! scheduling priority (due date ascending, then id ascending), which is the
//! order the planner consumes them in.

use vstd::prelude::*;

use crate::errors::PlanError;
use crate::ids::{lex_lt, lemma_lex_connex, lemma_lex_trans, str_eq, str_lt};
use crate::imvec::{weight_at, weights_len, weights_model, weights_new, weights_push};

verus! {

/// A customer order: a unique id, a due date (a timestamp in seconds), and
/// the weights of its boxes, in insertion order.
pub struct Order {
    pub id: String,
    pub due_date: i64,
    pub boxes: im::Vector<u64>,
}

/// The mathematical value of an order.
#[verifier::ext_equal]
pub ghost struct OrderView {
    pub id: Seq<char>,
    pub due_date: i64,
    pub boxes: Seq<u64>,
}

impl View for Order {
    type V = OrderView;

    open spec fn view(&self) -> OrderView {
        OrderView { id: self.id@, due_date: self.due_date, boxes: weights_model(self.boxes) }
    }
}

impl OrderView {
    /// Every box weight is strictly positive.
    pub open spec fn wf(self) -> bool {
        forall|i: int| 0 <= i < self.boxes.len() ==> self.boxes[i] > 0
    }
}

/// An order as it is first added: no boxes yet.
pub open spec fn fresh_order(id: Seq<char>, due_date: i64) -> OrderView {
    OrderView { id, due_date, boxes: Seq::<u64>::empty() }
}

/// Scheduling priority: earlier due date first, ties by id ascending.
pub open spec fn prio_lt(a: OrderView, b: OrderView) -> bool {
    a.due_date < b.due_date || (a.due_date == b.due_date && lex_lt(a.id, b.id))
}

/// Orders that are unordered either way share their due date and id.
pub proof fn lemma_prio_cases(a: OrderView, b: OrderView)
    ensures
        !prio_lt(a, b) && !prio_lt(b, a) ==> a.due_date == b.due_date && a.id == b.id,
{
    if !prio_lt(a, b) && !prio_lt(b, a) {
        lemma_lex_connex(a.id, b.id);
    }
}

/// The scheduling priority is transitive.
pub proof fn lemma_prio_trans(a: OrderView, b: OrderView, c: OrderView)
    requires
        prio_lt(a, b),
        prio_lt(b, c),
    ensures
        prio_lt(a, c),
{
    if a.due_date == b.due_date && b.due_date == c.due_date {
        lemma_lex_trans(a.id, b.id, c.id);
    }
}

/// The catalog invariant: every order well formed, ids pairwise distinct,
/// and the sequence strictly sorted by scheduling priority.
pub open spec fn cat_wf(cat: Seq<OrderView>) -> bool {
    &&& forall|i: int| 0 <= i < cat.len() ==> (#[trigger] cat[i]).wf()
    &&& forall|i: int, j: int| 0 <= i < j < cat.len() ==> cat[i].id != cat[j].id
    &&& forall|i: int, j: int| 0 <= i < j < cat.len() ==> prio_lt(cat[i], cat[j])
}

/// Whether the catalog holds an order with this id.
pub open spec fn cat_has(cat: Seq<OrderView>, id: Seq<char>) -> bool {
    exists|i: int| 0 <= i < cat.len() && cat[i].id == id
}

/// The first index holding this id, or -1 when absent.
pub open spec fn cat_index(cat: Seq<OrderView>, id: Seq<char>) -> int
    decreases cat.len(),
{
    if cat.len() == 0 {
        -1
    } else if cat[0].id == id {
        0
    } else {
        let r = cat_index(cat.drop_first(), id);
        if r < 0 {
            -1
        } else {
            r + 1
        }
    }
}

pub proof fn lemma_cat_index_props(cat: Seq<OrderView>, id: Seq<char>)
    ensures
        cat_has(cat, id) ==> 0 <= cat_index(cat, id) < cat.len() && cat[cat_index(cat, id)].id
            == id && forall|j: int| 0 <= j < cat_index(cat, id) ==> (#[trigger] cat[j]).id != id,
        !cat_has(cat, id) ==> cat_index(cat, id) == -1,
    decreases cat.len(),
{
    if cat.len() == 0 {
    } else if cat[0].id == id {
    } else {
        let d = cat.drop_first();
        lemma_cat_index_props(d, id);
        if cat_has(cat, id) {
            let i = choose|i: int| 0 <= i < cat.len() && cat[i].id == id;
            assert(d[i - 1].id == id);
            assert(cat_has(d, id));
            let r = cat_index(d, id);
            assert(cat_index(cat, id) == r + 1);
            assert forall|j: int| 0 <= j < r + 1 implies (#[trigger] cat[j]).id != id by {
                if j > 0 {
                    assert(cat[j] == d[j - 1]);
                }
            }
        } else {
            if cat_has(d, id) {
                let i = choose|i: int| 0 <= i < d.len() && d[i].id == id;
                assert(cat[i + 1].id == id);
            }
        }
    }
}

/// Where an order sorts into a catalog: before the first entry it precedes.
pub open spec fn cat_insert(cat: Seq<OrderView>, o: OrderView) -> Seq<OrderView>
    decreases cat.len(),
{
    if cat.len() == 0 {
        seq![o]
    } else if prio_lt(o, cat[0]) {
        seq![o] + cat
    } else {
        seq![cat[0]] + cat_insert(cat.drop_first(), o)
    }
}

pub proof fn lemma_cat_insert_at(cat: Seq<OrderView>, o: OrderView, k: int)
    requires
        0 <= k <= cat.len(),
        forall|i: int| 0 <= i < k ==> !prio_lt(o, #[trigger] cat[i]),
        k < cat.len() ==> prio_lt(o, cat[k]),
    ensures
        cat_insert(cat, o) == cat.insert(k, o),
    decreases cat.len(),
{
    if cat.len() == 0 {
        assert(cat_insert(cat, o) =~= cat.insert(0, o));
    } else if k == 0 {
        assert(seq![o] + cat =~= cat.insert(0, o));
    } else {
        let d = cat.drop_first();
        lemma_cat_insert_at(d, o, k - 1);
        assert(seq![cat[0]] + d.insert(k - 1, o) =~= cat.insert(k, o));
    }
}

/// An ordered, well-formed fresh order keeps the catalog invariant when
/// inserted at its sort position.
pub proof fn lemma_cat_insert_wf(cat: Seq<OrderView>, o: OrderView, k: int)
    requires
        cat_wf(cat),
        o.wf(),
        forall|i: int| 0 <= i < cat.len() ==> (#[trigger] cat[i]).id != o.id,
        0 <= k <= cat.len(),
        forall|i: int| 0 <= i < k ==> !prio_lt(o, #[trigger] cat[i]),
        k < cat.len() ==> prio_lt(o, cat[k]),
    ensures
        cat_wf(cat.insert(k, o)),
{
    let s = cat.insert(k, o);
    cat.insert_ensures(k, o);
    assert forall|i: int| 0 <= i < k implies prio_lt(#[trigger] cat[i], o) by {
        lemma_prio_cases(o, cat[i]);
    }
    assert forall|j: int| k <= j < cat.len() implies prio_lt(o, #[trigger] cat[j]) by {
        if j > k {
            lemma_prio_trans(o, cat[k], cat[j]);
        }
    }
    assert forall|i: int, j: int| 0 <= i < j < s.len() implies prio_lt(s[i], s[j]) && s[i].id
        != s[j].id by {
        if i < k {
            assert(s[i] == cat[i]);
        } else if i > k {
            assert(s[i] == cat[i - 1]);
        }
        if j < k {
            assert(s[j] == cat[j]);
        } else if j > k {
            assert(s[j] == cat[j - 1]);
        }
    }
    assert forall|i: int| 0 <= i < s.len() implies (#[trigger] s[i]).wf() by {
        if i < k {
            assert(s[i] == cat[i]);
        } else if i > k {
            assert(s[i] == cat[i - 1]);
        }
    }
}

/// The order with one more box of weight `w` appended.
pub open spec fn with_box(o: OrderView, w: u64) -> OrderView {
    OrderView { boxes: o.boxes.push(w), ..o }
}

/// The order catalog (the planning problem's input mapping from id to
/// order). Held sorted by scheduling priority; ids are unique.
pub struct Problem {
    pub orders: Vec<Order>,
}

impl View for Problem {
    type V = Seq<OrderView>;

    open spec fn view(&self) -> Seq<OrderView> {
        self.orders@.map_values(|o: Order| o@)
    }
}

impl Problem {
    /// An empty catalog.
    pub fn new() -> (p: Problem)
        ensures
            p@ == Seq::<OrderView>::empty(),
            cat_wf(p@),
    {
        let p = Problem { orders: Vec::new() };
        proof {
            assert(p@ =~= Seq::<OrderView>::empty());
        }
        p
    }

    /// The sort position of a fresh order: the first entry it precedes.
    #[verifier::loop_isolation(false)]
    fn find_slot(&self, id: &str, due_date: i64) -> (k: usize)
        ensures
            k <= self@.len(),
            forall|j: int| 0 <= j < k ==> !prio_lt(fresh_order(id@, due_date), #[trigger] self@[j]),
            k < self@.len() ==> prio_lt(fresh_order(id@, due_date), self@[k as int]),
    {
        let ghost nv = fresh_order(id@, due_date);
        let n = self.orders.len();
        let mut k: usize = 0;
        while k < n
            invariant
                n == self.orders.len(),
                k <= n,
                forall|j: int| 0 <= j < k ==> !prio_lt(nv, #[trigger] self@[j]),
            decreases n - k,
        {
            assert(self@[k as int] == self.orders@[k as int]@);
            let o = &self.orders[k];
            assert(*o == self.orders@[k as int]);
            if due_date < o.due_date || (due_date == o.due_date && str_lt(id, o.id.as_str())) {
                return k;
            }
            k = k + 1;
        }
        k
    }

    /// Adds an order with no boxes yet. Fails with `DuplicateId`, leaving
    /// the catalog unchanged, when the id is already present.
    #[verifier::loop_isolation(false)]
    pub fn add_order(&mut self, id: String, due_date: i64) -> (r: Result<(), PlanError>)
        requires
            cat_wf(old(self)@),
        ensures
            cat_wf(final(self)@),
            cat_has(old(self)@, id@) ==> r == Err::<(), PlanError>(PlanError::DuplicateId)
                && final(self)@ == old(self)@,
            !cat_has(old(self)@, id@) ==> r == Ok::<(), PlanError>(()) && final(self)@
                == cat_insert(old(self)@, fresh_order(id@, due_date)),
    {
        let ghost cat = self@;
        let ghost nv = fresh_order(id@, due_date);
        let n = self.orders.len();
        let mut i: usize = 0;
        while i < n
            invariant
                n == self.orders.len(),
                i <= n,
                self@ == cat,
                forall|j: int| 0 <= j < i ==> (#[trigger] cat[j]).id != id@,
            decreases n - i,
        {
            assert(cat[i as int] == self.orders@[i as int]@);
            if str_eq(self.orders[i].id.as_str(), id.as_str()) {
                proof {
                    assert(cat[i as int].id == id@);
                    assert(cat_has(cat, id@));
                }
                return Err(PlanError::DuplicateId);
            }
            i = i + 1;
        }
        assert(!cat_has(cat, id@));
        let k = self.find_slot(id.as_str(), due_date);
        let o = Order { id, due_date, boxes: weights_new() };
        self.orders.insert(k, o);
        proof {
            assert(self@ =~= cat.insert(k as int, nv));
            lemma_cat_insert_at(cat, nv, k as int);
            lemma_cat_insert_wf(cat, nv, k as int);
        }
        Ok(())
    }

    /// Decides the catalog invariant at run time, for callers that cannot
    /// establish it statically.
    #[verifier::loop_isolation(false)]
    pub fn check_wf(&self) -> (r: bool)
        ensures
            r == cat_wf(self@),
    {
        let ghost cat = self@;
        let n = self.orders.len();
        let mut i: usize = 0;
        while i < n
            invariant
                n == cat.len(),
                0 <= i <= n,
                forall|t: int| 0 <= t < i ==> (#[trigger] cat[t]).wf(),
                forall|p: int, q: int| 0 <= p < q < i ==> cat[p].id != cat[q].id,
                forall|p: int, q: int| 0 <= p < q < i ==> prio_lt(cat[p], cat[q]),
            decreases n - i,
        {
            assert(cat[i as int] == self.orders@[i as int]@);
            let o = &self.orders[i];
            let m = weights_len(&o.boxes);
            let mut j: usize = 0;
            while j < m
                invariant
                    m == cat[i as int].boxes.len(),
                    0 <= j <= m,
                    *o == self.orders@[i as int],
                    forall|t: int| 0 <= t < j ==> cat[i as int].boxes[t] > 0,
                decreases m - j,
            {
                if weight_at(&o.boxes, j) == 0 {
                    proof {
                        assert(!cat[i as int].wf());
                    }
                    return false;
                }
                j = j + 1;
            }
            let mut p: usize = 0;
            while p < i
                invariant
                    0 <= p <= i < n,
                    *o == self.orders@[i as int],
                    forall|t: int|
                        0 <= t < p ==> prio_lt(#[trigger] cat[t], cat[i as int]) && cat[t].id
                            != cat[i as int].id,
                decreases i - p,
            {
                assert(cat[p as int] == self.orders@[p as int]@);
                let a = &self.orders[p];
                assert(*a == self.orders@[p as int]);
                if str_eq(a.id.as_str(), o.id.as_str()) {
                    proof {
                        assert(cat[p as int].id == cat[i as int].id);
                        assert(!cat_wf(cat));
                    }
                    return false;
                }
                let lt = a.due_date < o.due_date || (a.due_date == o.due_date && str_lt(
                    a.id.as_str(),
                    o.id.as_str(),
                ));
                if !lt {
                    proof {
                        assert(!prio_lt(cat[p as int], cat[i as int]));
                        assert(!cat_wf(cat));
                    }
                    return false;
                }
                p = p + 1;
            }
            i = i + 1;
        }
        true
    }

    /// Appends a box to an order's box list. Fails with `UnknownOrder` when
    /// the id is absent, with `InvalidWeight` when the weight is not
    /// strictly positive; either failure leaves the catalog unchanged.
    #[verifier::loop_isolation(false)]
    pub fn add_box(&mut self, order_id: &str, weight: i64) -> (r: Result<(), PlanError>)
        requires
            cat_wf(old(self)@),
        ensures
            cat_wf(final(self)@),
            !cat_has(old(self)@, order_id@) ==> r == Err::<(), PlanError>(PlanError::UnknownOrder)
                && final(self)@ == old(self)@,
            cat_has(old(self)@, order_id@) && weight <= 0 ==> r == Err::<(), PlanError>(
                PlanError::InvalidWeight,
            ) && final(self)@ == old(self)@,
            cat_has(old(self)@, order_id@) && weight > 0 ==> r == Ok::<(), PlanError>(())
                && final(self)@ == old(self)@.update(
                cat_index(old(self)@, order_id@),
                with_box(old(self)@[cat_index(old(self)@, order_id@)], weight as u64),
            ),
    {
        let ghost cat = self@;
        let ghost old_orders = self.orders@;
        let n = self.orders.len();
        let mut i: usize = 0;
        while i < n
            invariant
                n == self.orders.len(),
                i <= n,
                self@ == cat,
                self.orders@ == old_orders,
                cat_wf(cat),
                forall|j: int| 0 <= j < i ==> (#[trigger] cat[j]).id != order_id@,
            decreases n - i,
        {
            assert(cat[i as int] == self.orders@[i as int]@);
            if str_eq(self.orders[i].id.as_str(), order_id) {
                proof {
                    assert(cat[i as int].id == order_id@);
                    assert(cat_has(cat, order_id@));
                    lemma_cat_index_props(cat, order_id@);
                    let ci = cat_index(cat, order_id@);
                    if ci < i as int {
                        assert(cat[ci].id == order_id@);
                    }
                    assert(ci == i as int);
                }
                if weight <= 0 {
                    return Err(PlanError::InvalidWeight);
                }
                let mut o = self.orders.remove(i);
                let ghost o_before = o;
                weights_push(&mut o.boxes, weight as u64);
                let ghost o_after = o;
                self.orders.insert(i, o);
                proof {
                    let oi = i as int;
                    let newcat = cat.update(oi, with_box(cat[oi], weight as u64));
                    old_orders.remove_ensures(oi);
                    old_orders.remove(oi).insert_ensures(oi, o_after);
                    assert(o_after@ == with_box(cat[oi], weight as u64));
                    assert forall|m: int| 0 <= m < newcat.len() implies self@[m] == newcat[m] by {
                        assert(self@[m] == self.orders@[m]@);
                        if m != oi {
                            assert(self.orders@[m] == old_orders[m]);
                        }
                    }
                    assert(self@ =~= newcat);
                    assert(cat_wf(self@)) by {
                        let s = self@;
                        assert(s[oi].id == cat[oi].id && s[oi].due_date == cat[oi].due_date);
                        assert(s[oi].wf()) by {
                            let b = s[oi].boxes;
                            assert(forall|m: int|
                                0 <= m < b.len() - 1 ==> b[m] == cat[oi].boxes[m]);
                            assert(b[b.len() - 1] == weight as u64);
                        }
                        assert forall|p: int, q: int| 0 <= p < q < s.len() implies prio_lt(
                            s[p],
                            s[q],
                        ) && s[p].id != s[q].id by {
                            assert(s[p].id == cat[p].id && s[p].due_date == cat[p].due_date);
                            assert(s[q].id == cat[q].id && s[q].due_date == cat[q].due_date);
                            assert(prio_lt(cat[p], cat[q]));
                            assert(cat[p].id != cat[q].id);
                        }
                    }
                }
                return Ok(());
            }
            i = i + 1;
        }
        proof {
            lemma_cat_index_props(cat, order_id@);
        }
        Err(PlanError::UnknownOrder)
    }
}

} // verus!
