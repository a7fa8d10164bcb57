//! The allocation domain: order lines, stock batches and the choice of the
//! batch that serves an order line.

use vstd::prelude::*;

use crate::date::{compare_dates, date_cmp, Date};

verus! {

/// The only domain-level failure of an allocation.
#[derive(Debug, Clone, Copy, PartialEq, Eq, Structural)]
pub enum DomainError {
    /// No candidate batch can serve the requested SKU and quantity.
    OutOfStock,
}

/// A whole number of units.
#[derive(Debug, Clone, Copy, PartialEq, Eq, Hash, Structural)]
pub struct Quantity(pub i32);

/// A stock-keeping unit: the product type, compared case-sensitively.
#[derive(Debug, Clone, PartialEq, Eq, Hash)]
pub struct Sku(pub String);

/// The identifier of a batch.
#[derive(Debug, Clone, PartialEq, Eq, Hash)]
pub struct Reference(pub String);

/// A request for a quantity of one SKU on behalf of one order.
#[derive(Debug, Clone, PartialEq, Eq, Hash)]
pub struct OrderLine {
    pub orderid: String,
    pub sku: Sku,
    pub qty: Quantity,
}

/// An order line as a value: two lines are the same exactly when their
/// views are equal.
pub struct LineView {
    pub orderid: Seq<char>,
    pub sku: Seq<char>,
    pub qty: int,
}

impl View for OrderLine {
    type V = LineView;

    open spec fn view(&self) -> LineView {
        LineView { orderid: self.orderid@, sku: self.sku.0@, qty: self.qty.0 as int }
    }
}

impl OrderLine {
    pub fn new(orderid: String, sku: Sku, qty: Quantity) -> (r: OrderLine)
        ensures
            r@ == (LineView { orderid: orderid@, sku: sku.0@, qty: qty.0 as int }),
    {
        OrderLine { orderid, sku, qty }
    }

    /// Value equality of order lines.
    pub fn same_as(&self, other: &OrderLine) -> (r: bool)
        ensures
            r == (self@ == other@),
    {
        self.orderid == other.orderid && self.sku.0 == other.sku.0 && self.qty.0 == other.qty.0
    }
}

/// Sum of the quantities of a sequence of order lines.
pub open spec fn total_qty(lines: Seq<LineView>) -> int
    decreases lines.len(),
{
    if lines.len() == 0 {
        0
    } else {
        total_qty(lines.drop_last()) + lines.last().qty
    }
}

/// A batch as a value. `allocations` holds each allocated line once; its
/// order carries no meaning.
pub struct BatchView {
    pub reference: Seq<char>,
    pub sku: Seq<char>,
    pub purchased: int,
    pub eta: Option<Date>,
    pub allocations: Seq<LineView>,
}

impl BatchView {
    pub open spec fn allocated(self) -> int {
        total_qty(self.allocations)
    }

    pub open spec fn available(self) -> int {
        self.purchased - self.allocated()
    }

    pub open spec fn can_allocate(self, line: LineView) -> bool {
        line.sku == self.sku && self.available() >= line.qty
    }

    pub open spec fn with_allocations(self, allocations: Seq<LineView>) -> BatchView {
        BatchView { allocations, ..self }
    }

    /// The batch after `Batch::deallocate(line)`: the line leaves the set of
    /// allocations where it is in it.
    pub open spec fn deallocate(self, line: LineView) -> BatchView {
        if self.allocations.contains(line) {
            let i = choose|i: int| 0 <= i < self.allocations.len() && self.allocations[i] == line;
            self.with_allocations(self.allocations.remove(i))
        } else {
            self
        }
    }

    /// The batch after `Batch::allocate(line)`: the line joins the set of
    /// allocations where the batch can serve it.
    pub open spec fn allocate(self, line: LineView) -> BatchView {
        if self.can_allocate(line) && !self.allocations.contains(line) {
            self.with_allocations(self.allocations.push(line))
        } else {
            self
        }
    }
}

/// A delivery of stock of one SKU, with the order lines allocated to it.
#[derive(Debug)]
pub struct Batch {
    ref_: Reference,
    sku: Sku,
    purchased_quantity: Quantity,
    eta: Option<Date>,
    allocations: Vec<OrderLine>,
}

impl View for Batch {
    type V = BatchView;

    closed spec fn view(&self) -> BatchView {
        BatchView {
            reference: self.ref_.0@,
            sku: self.sku.0@,
            purchased: self.purchased_quantity.0 as int,
            eta: self.eta,
            allocations: self.allocations@.map_values(|l: OrderLine| l@),
        }
    }
}

pub open spec fn nonneg_part(x: int) -> int {
    if x > 0 { x } else { 0 }
}

impl Batch {
    /// Allocations form a set of lines of this batch's SKU, each of a
    /// non-negative quantity, that together take no more than was purchased.
    pub open spec fn wf(&self) -> bool {
        let v = self@;
        &&& v.allocations.no_duplicates()
        &&& forall|i: int|
            0 <= i < v.allocations.len() ==> #[trigger] v.allocations[i].qty >= 0
                && v.allocations[i].sku == v.sku
        &&& v.allocated() <= nonneg_part(v.purchased)
    }

    /// A batch of `qty` units of `sku`, arriving on `eta` (`None`: already in
    /// the warehouse), with nothing allocated.
    pub fn new(ref_: Reference, sku: Sku, qty: Quantity, eta: Option<Date>) -> (r: Batch)
        ensures
            r.wf(),
            r@ == (BatchView {
                reference: ref_.0@,
                sku: sku.0@,
                purchased: qty.0 as int,
                eta,
                allocations: Seq::empty(),
            }),
    {
        let r = Batch { ref_, sku, purchased_quantity: qty, eta, allocations: Vec::new() };
        assert(r@.allocations =~= Seq::<LineView>::empty());
        r
    }

    /// Where `line` stands among the allocations, if it does.
    fn position_of(&self, line: &OrderLine) -> (r: Option<usize>)
        ensures
            match r {
                Some(i) => i < self@.allocations.len() && self@.allocations[i as int] == line@,
                None => !self@.allocations.contains(line@),
            },
    {
        let mut i: usize = 0;
        while i < self.allocations.len()
            invariant
                i <= self.allocations.len(),
                forall|j: int| 0 <= j < i ==> self@.allocations[j] != line@,
            decreases self.allocations.len() - i,
        {
            if self.allocations[i].same_as(line) {
                return Some(i);
            }
            i += 1;
        }
        None
    }

    /// Total quantity of the allocated lines.
    pub fn allocated_quantity(&self) -> (r: i32)
        requires
            self.wf(),
        ensures
            r == self@.allocated(),
    {
        let ghost lines = self@.allocations;
        let mut sum: i32 = 0;
        let mut i: usize = 0;
        while i < self.allocations.len()
            invariant
                self.wf(),
                lines == self@.allocations,
                i <= lines.len(),
                sum == total_qty(lines.take(i as int)),
            decreases lines.len() - i,
        {
            proof {
                lemma_total_take_bounded(lines, i as int + 1);
                assert(lines.take(i as int + 1).drop_last() =~= lines.take(i as int));
            }
            sum = sum + self.allocations[i].qty.0;
            i += 1;
        }
        assert(lines.take(i as int) =~= lines);
        sum
    }

    /// Purchased quantity less the allocated quantity.
    pub fn available_quantity(&self) -> (r: i32)
        requires
            self.wf(),
        ensures
            r == self@.available(),
    {
        proof {
            lemma_total_take_bounded(self@.allocations, self@.allocations.len() as int);
            assert(self@.allocations.take(self@.allocations.len() as int) =~= self@.allocations);
        }
        self.purchased_quantity.0 - self.allocated_quantity()
    }

    /// The line is of this batch's SKU and no larger than what is available.
    pub fn can_allocate(&self, line: &OrderLine) -> (r: bool)
        requires
            self.wf(),
        ensures
            r == self@.can_allocate(line@),
    {
        self.sku.0 == line.sku.0 && self.available_quantity() >= line.qty.0
    }

    /// Adds `line` to the allocations where `can_allocate(line)` holds; a line
    /// that is already allocated is not added twice. Order lines ask for a
    /// non-negative number of units.
    pub fn allocate(&mut self, line: OrderLine)
        requires
            old(self).wf(),
            line.qty.0 >= 0,
        ensures
            final(self).wf(),
            final(self)@ == old(self)@.allocate(line@),
    {
        if self.can_allocate(&line) {
            if self.position_of(&line).is_none() {
                let ghost before = self@;
                self.allocations.push(line);
                proof {
                    assert(self@.allocations =~= before.allocations.push(line@));
                    assert(self@.allocations.drop_last() =~= before.allocations);
                    assert(forall|i: int| 0 <= i < before.allocations.len()
                        ==> self@.allocations[i] == before.allocations[i]);
                    assert(self@.allocated() == before.allocated() + line@.qty);
                    assert(self@.allocations.no_duplicates()) by {
                        assert forall|i: int, j: int|
                            0 <= i < self@.allocations.len() && 0 <= j < self@.allocations.len()
                                && i != j implies self@.allocations[i] != self@.allocations[j] by {
                            if i == before.allocations.len() as int {
                                assert(before.allocations[j] != line@);
                            } else if j == before.allocations.len() as int {
                                assert(before.allocations[i] != line@);
                            }
                        }
                    }
                }
            }
        }
    }

    /// Removes `line` from the allocations; a line that is not allocated is
    /// ignored.
    pub fn deallocate(&mut self, line: OrderLine)
        requires
            old(self).wf(),
        ensures
            final(self).wf(),
            final(self)@ == old(self)@.deallocate(line@),
            !final(self)@.allocations.contains(line@),
            final(self)@.available() == old(self)@.available() + (if old(self)@.allocations.contains(
                line@,
            ) {
                line@.qty
            } else {
                0
            }),
    {
        match self.position_of(&line) {
            Some(i) => {
                let ghost before = self@;
                self.allocations.remove(i);
                proof {
                    let k = choose|k: int|
                        0 <= k < before.allocations.len() && before.allocations[k] == line@;
                    assert(k == i);
                    assert(self@.allocations =~= before.allocations.remove(i as int));
                    lemma_total_remove(before.allocations, i as int);
                    let after = self@.allocations;
                    assert forall|j: int| 0 <= j < after.len() implies after[j] != line@ by {
                        if j < i {
                            assert(after[j] == before.allocations[j]);
                        } else {
                            assert(after[j] == before.allocations[j + 1]);
                        }
                    }
                }
            },
            None => {},
        }
    }
}

/// Removing one line takes its quantity off the total.
proof fn lemma_total_remove(lines: Seq<LineView>, i: int)
    requires
        0 <= i < lines.len(),
    ensures
        total_qty(lines.remove(i)) == total_qty(lines) - lines[i].qty,
    decreases lines.len(),
{
    if i == lines.len() - 1 {
        assert(lines.remove(i) =~= lines.drop_last());
    } else {
        lemma_total_remove(lines.drop_last(), i);
        assert(lines.remove(i).drop_last() =~= lines.drop_last().remove(i));
    }
}

/// With non-negative quantities, every prefix totals between zero and the
/// whole.
proof fn lemma_total_take_bounded(lines: Seq<LineView>, n: int)
    requires
        0 <= n <= lines.len(),
        forall|i: int| 0 <= i < lines.len() ==> #[trigger] lines[i].qty >= 0,
    ensures
        0 <= total_qty(lines.take(n)) <= total_qty(lines),
    decreases lines.len(),
{
    if lines.len() > 0 {
        if n == lines.len() {
            assert(lines.take(n) =~= lines);
            lemma_total_take_bounded(lines.drop_last(), n - 1);
            assert(lines.drop_last().take(n - 1) =~= lines.drop_last());
        } else {
            lemma_total_take_bounded(lines.drop_last(), n);
            assert(lines.drop_last().take(n) =~= lines.take(n));
            lemma_total_take_bounded(lines.drop_last(), lines.len() - 1);
            assert(lines.drop_last().take(lines.len() - 1) =~= lines.drop_last());
        }
    } else {
        assert(lines.take(n) =~= lines);
    }
}


/// Allocation preference of two arrival dates: stock already in the
/// warehouse (`None`) comes first, then shipments by their date.
pub open spec fn eta_cmp(a: Option<Date>, b: Option<Date>) -> std::cmp::Ordering {
    match (a, b) {
        (None, None) => std::cmp::Ordering::Equal,
        (None, Some(_)) => std::cmp::Ordering::Less,
        (Some(_), None) => std::cmp::Ordering::Greater,
        (Some(x), Some(y)) => date_cmp(x, y),
    }
}

/// `a` is served no later than `b`.
pub open spec fn eta_le(a: Option<Date>, b: Option<Date>) -> bool {
    eta_cmp(a, b) != std::cmp::Ordering::Greater
}

/// The preference order is a total preorder.
proof fn lemma_eta_le_total_preorder()
    ensures
        forall|a: Option<Date>, b: Option<Date>| eta_le(a, b) || eta_le(b, a),
        forall|a: Option<Date>, b: Option<Date>, c: Option<Date>|
            eta_le(a, b) && eta_le(b, c) ==> eta_le(a, c),
{
}

/// Batches in order of preference.
pub open spec fn sorted_by_preference(s: Seq<BatchView>) -> bool {
    forall|i: int, j: int| 0 <= i < j < s.len() ==> eta_le(s[i].eta, s[j].eta)
}

pub open spec fn views(batches: Seq<Batch>) -> Seq<BatchView> {
    batches.map_values(|b: Batch| b@)
}

pub open spec fn all_wf(batches: Seq<Batch>) -> bool {
    forall|i: int| 0 <= i < batches.len() ==> #[trigger] batches[i].wf()
}

/// Selects the batches that arrive on `eta`.
pub open spec fn arriving(eta: Option<Date>) -> spec_fn(BatchView) -> bool {
    |b: BatchView| b.eta == eta
}

/// `sorted` holds the batches of `batches`, in order of preference; batches
/// that arrive on the same day keep their relative order (the sort is
/// stable), so the order is determined by `batches`.
pub open spec fn is_preference_order_of(sorted: Seq<BatchView>, batches: Seq<BatchView>) -> bool {
    &&& sorted.to_multiset() == batches.to_multiset()
    &&& sorted_by_preference(sorted)
    &&& forall|eta: Option<Date>| #[trigger]
        sorted.filter(arriving(eta)) == batches.filter(arriving(eta))
}

/// Taking out the first batch that arrives on some day takes it off the
/// front of the batches that arrive on that day.
proof fn lemma_filter_remove_first(s: Seq<BatchView>, m: int, eta: Option<Date>)
    requires
        0 <= m < s.len(),
        forall|j: int| 0 <= j < m ==> s[j].eta != s[m].eta,
    ensures
        s.filter(arriving(eta)) == (if s[m].eta == eta {
            seq![s[m]]
        } else {
            Seq::empty()
        }) + s.remove(m).filter(arriving(eta)),
{
    let p = arriving(eta);
    let front = s.take(m);
    let back = s.skip(m + 1);
    assert(s =~= front + (seq![s[m]] + back));
    assert(s.remove(m) =~= front + back);
    Seq::filter_distributes_over_add(front, seq![s[m]] + back, p);
    Seq::filter_distributes_over_add(front, back, p);
    back.lemma_filter_prepend(s[m], p);
    if s[m].eta == eta {
        assert(front.all(|x: BatchView| !p(x))) by {
            assert forall|j: int| 0 <= j < front.len() implies !p(#[trigger] front[j]) by {
                assert(front[j] == s[j]);
            }
        }
        front.lemma_all_neg_filter_empty(p);
        assert(front.filter(p) =~= Seq::<BatchView>::empty());
        assert(s.filter(p) =~= seq![s[m]] + back.filter(p));
        assert(s.remove(m).filter(p) =~= back.filter(p));
    } else {
        assert(s.filter(p) =~= front.filter(p) + back.filter(p));
    }
}

/// `i` is the first position whose batch can serve `line`.
pub open spec fn first_fit_index(batches: Seq<BatchView>, line: LineView, i: int) -> bool {
    &&& 0 <= i < batches.len()
    &&& batches[i].can_allocate(line)
    &&& forall|j: int| 0 <= j < i ==> !(#[trigger] batches[j].can_allocate(line))
}

/// What first-fit allocation of `line` over `before` does: the first batch
/// that can serve the line takes it and its reference is returned; where no
/// batch can, nothing changes and the result is `OutOfStock`.
pub open spec fn first_fit_outcome(
    before: Seq<BatchView>,
    line: LineView,
    after: Seq<BatchView>,
    r: Result<Option<String>, DomainError>,
) -> bool {
    match r {
        Ok(Some(reference)) => exists|i: int| #[trigger]
            first_fit_index(before, line, i) && after == before.update(i, before[i].allocate(line))
                && reference@ == before[i].reference,
        Ok(None) => false,
        Err(DomainError::OutOfStock) => after == before && forall|i: int|
            0 <= i < before.len() ==> !(#[trigger] before[i].can_allocate(line)),
    }
}

impl Batch {
    /// Allocation preference: in-warehouse stock first, then shipments by
    /// earliest arrival.
    pub fn cmp(&self, other: &Batch) -> (r: std::cmp::Ordering)
        ensures
            r == eta_cmp(self@.eta, other@.eta),
    {
        match (&self.eta, &other.eta) {
            (None, None) => std::cmp::Ordering::Equal,
            (None, Some(_)) => std::cmp::Ordering::Less,
            (Some(_), None) => std::cmp::Ordering::Greater,
            (Some(a), Some(b)) => compare_dates(a, b),
        }
    }
}

/// Sorts the batches into order of preference (stable selection sort).
pub fn sort_by_preference(batches: &mut Vec<Batch>)
    requires
        all_wf(old(batches)@),
    ensures
        all_wf(final(batches)@),
        is_preference_order_of(views(final(batches)@), views(old(batches)@)),
{
    broadcast use vstd::seq_lib::group_to_multiset_ensures;

    let ghost orig = views(batches@);
    let mut sorted: Vec<Batch> = Vec::new();
    proof {
        lemma_eta_le_total_preorder();
        assert(views(sorted@) =~= Seq::<BatchView>::empty());
        assert(views(sorted@).to_multiset().add(views(batches@).to_multiset()) =~= orig.to_multiset());
        assert forall|eta: Option<Date>| #[trigger]
            (views(sorted@).filter(arriving(eta)) + views(batches@).filter(arriving(eta))) == orig.filter(
            arriving(eta),
        ) by {
            views(sorted@).lemma_filter_len(arriving(eta));
            assert(views(sorted@).filter(arriving(eta)) =~= Seq::<BatchView>::empty());
            assert(views(sorted@).filter(arriving(eta)) + views(batches@).filter(arriving(eta))
                =~= views(batches@).filter(arriving(eta)));
        }
    }
    while batches.len() > 0
        invariant
            all_wf(batches@),
            all_wf(sorted@),
            views(sorted@).to_multiset().add(views(batches@).to_multiset()) == orig.to_multiset(),
            forall|eta: Option<Date>| #[trigger]
                (views(sorted@).filter(arriving(eta)) + views(batches@).filter(arriving(eta)))
                    == orig.filter(arriving(eta)),
            sorted_by_preference(views(sorted@)),
            forall|i: int, j: int|
                0 <= i < sorted@.len() && 0 <= j < batches@.len() ==> eta_le(
                    sorted@[i]@.eta,
                    batches@[j]@.eta,
                ),
            forall|a: Option<Date>, b: Option<Date>| eta_le(a, b) || eta_le(b, a),
            forall|a: Option<Date>, b: Option<Date>, c: Option<Date>|
                eta_le(a, b) && eta_le(b, c) ==> eta_le(a, c),
        decreases batches.len(),
    {
        let mut m: usize = 0;
        let mut k: usize = 1;
        while k < batches.len()
            invariant
                0 <= m < k <= batches.len(),
                forall|j: int| 0 <= j < k ==> eta_le(batches@[m as int]@.eta, batches@[j]@.eta),
                forall|j: int| 0 <= j < m ==> !eta_le(batches@[j]@.eta, batches@[m as int]@.eta),
                forall|a: Option<Date>, b: Option<Date>| eta_le(a, b) || eta_le(b, a),
                forall|a: Option<Date>, b: Option<Date>, c: Option<Date>|
                    eta_le(a, b) && eta_le(b, c) ==> eta_le(a, c),
            decreases batches.len() - k,
        {
            match batches[m].cmp(&batches[k]) {
                std::cmp::Ordering::Greater => {
                    m = k;
                },
                _ => {},
            }
            k += 1;
        }
        let ghost old_sorted = sorted@;
        let ghost old_rest = batches@;
        let b = batches.remove(m);
        sorted.push(b);
        proof {
            assert(views(sorted@) =~= views(old_sorted).push(old_rest[m as int]@));
            assert(views(batches@) =~= views(old_rest).remove(m as int));
            let vr = views(old_rest);
            let x = old_rest[m as int]@;
            vr.to_multiset_ensures();
            views(old_sorted).to_multiset_ensures();
            assert(vr[m as int] == x);
            assert(vr.contains(x));
            assert(vr.to_multiset().count(x) > 0);
            assert(views(old_sorted).push(x).to_multiset() =~= views(old_sorted).to_multiset().insert(x));
            assert(vr.remove(m as int).to_multiset() =~= vr.to_multiset().remove(x));
            assert(views(sorted@).to_multiset().add(views(batches@).to_multiset()) =~= views(old_sorted).to_multiset().add(vr.to_multiset()));
            assert forall|j: int| 0 <= j < batches@.len() implies batches@[j]
                == old_rest[if j < m { j } else { j + 1 }] by {}
            assert forall|j: int| 0 <= j < m implies vr[j].eta != vr[m as int].eta by {
                assert(vr[j] == old_rest[j]@);
                assert(!eta_le(old_rest[j]@.eta, old_rest[m as int]@.eta));
            }
            assert forall|eta: Option<Date>| #[trigger]
                (views(sorted@).filter(arriving(eta)) + views(batches@).filter(arriving(eta)))
                    == orig.filter(arriving(eta)) by {
                lemma_filter_remove_first(vr, m as int, eta);
                views(old_sorted).lemma_filter_push(x, arriving(eta));
                assert(views(old_sorted).filter(arriving(eta)) + vr.filter(arriving(eta))
                    == orig.filter(arriving(eta)));
                assert(views(sorted@).filter(arriving(eta)) + views(batches@).filter(arriving(eta))
                    =~= views(old_sorted).filter(arriving(eta)) + vr.filter(arriving(eta)));
            }
            assert forall|i: int, j: int| 0 <= i < j < views(sorted@).len() implies eta_le(
                views(sorted@)[i].eta,
                views(sorted@)[j].eta,
            ) by {
                if j == views(sorted@).len() - 1 {
                    assert(sorted@[j] == old_rest[m as int]);
                    assert(views(sorted@)[i] == old_sorted[i]@);
                } else {
                    assert(views(sorted@)[i] == views(old_sorted)[i]);
                    assert(views(sorted@)[j] == views(old_sorted)[j]);
                }
            }
            assert forall|i: int, j: int|
                0 <= i < sorted@.len() && 0 <= j < batches@.len() implies eta_le(
                sorted@[i]@.eta,
                batches@[j]@.eta,
            ) by {
                let jj = if j < m { j } else { j + 1 };
                assert(batches@[j] == old_rest[jj]);
                if i == sorted@.len() - 1 {
                    assert(sorted@[i] == old_rest[m as int]);
                } else {
                    assert(sorted@[i] == old_sorted[i]);
                }
            }
        }
    }
    proof {
        assert(views(batches@) =~= Seq::<BatchView>::empty());
        assert(views(sorted@).to_multiset() =~= orig.to_multiset());
        assert forall|eta: Option<Date>| #[trigger]
            views(sorted@).filter(arriving(eta)) == orig.filter(arriving(eta)) by {
            views(batches@).lemma_filter_len(arriving(eta));
            assert(views(batches@).filter(arriving(eta)) =~= Seq::<BatchView>::empty());
            assert(views(sorted@).filter(arriving(eta)) + views(batches@).filter(arriving(eta))
                =~= views(sorted@).filter(arriving(eta)));
        }
    }
    *batches = sorted;
}

/// Allocates `line` to the first batch, in the given order, that can serve it.
fn allocate_first_fit(line: OrderLine, batches: &mut Vec<Batch>) -> (r: Result<
    Option<String>,
    DomainError,
>)
    requires
        all_wf(old(batches)@),
        line.qty.0 >= 0,
    ensures
        all_wf(final(batches)@),
        first_fit_outcome(views(old(batches)@), line@, views(final(batches)@), r),
{
    let ghost start = batches@;
    let mut i: usize = 0;
    while i < batches.len()
        invariant
            batches@ == start,
            start == old(batches)@,
            all_wf(batches@),
            line.qty.0 >= 0,
            i <= batches.len(),
            forall|j: int| 0 <= j < i ==> !(#[trigger] views(start)[j].can_allocate(line@)),
        decreases batches.len() - i,
    {
        if batches[i].can_allocate(&line) {
            let ghost before = views(start);
            let ghost lv = line@;
            let mut b = batches.remove(i);
            assert(before[i as int] == b@);
            let reference = b.ref_.0.clone();
            b.allocate(line);
            let ghost bv = b@;
            assert(bv == before[i as int].allocate(lv));
            assert(reference@ == before[i as int].reference);
            batches.insert(i, b);
            proof {
                assert(batches@ =~= start.update(i as int, batches@[i as int]));
                assert(views(batches@) =~= before.update(i as int, bv));
                assert(first_fit_index(before, lv, i as int));
            }
            return Ok(Some(reference));
        }
        i += 1;
    }
    proof {
        assert(views(batches@) =~= views(start));
    }
    Err(DomainError::OutOfStock)
}

/// Allocates `line` to the preferred batch that can serve it: the batches are
/// first sorted into order of preference (in-warehouse stock, then shipments
/// by earliest arrival), then the first that can serve the line takes it.
/// Returns that batch's reference, or `OutOfStock` where no batch can serve
/// the line, in which case no batch changes (only their order does). Batches
/// of another SKU are never chosen. The line asks for a non-negative number of
/// units.
pub fn allocate(line: OrderLine, batches: &mut Vec<Batch>) -> (r: Result<
    Option<String>,
    DomainError,
>)
    requires
        all_wf(old(batches)@),
        line.qty.0 >= 0,
    ensures
        all_wf(final(batches)@),
        exists|sorted: Seq<BatchView>| #[trigger]
            is_preference_order_of(sorted, views(old(batches)@)) && first_fit_outcome(
                sorted,
                line@,
                views(final(batches)@),
                r,
            ),
        r is Ok <==> exists|i: int|
            0 <= i < old(batches)@.len() && #[trigger] old(batches)@[i]@.can_allocate(line@),
        r matches Ok(reference) ==> reference is Some,
        r is Err ==> views(final(batches)@).to_multiset() == views(old(batches)@).to_multiset(),
{
    broadcast use vstd::seq_lib::group_to_multiset_ensures;

    let ghost start = views(batches@);
    sort_by_preference(batches);
    let ghost sorted = views(batches@);
    let r = allocate_first_fit(line, batches);
    proof {
        assert(is_preference_order_of(sorted, start));
        if exists|i: int| 0 <= i < old(batches)@.len() && #[trigger] old(batches)@[i]@.can_allocate(line@) {
            let i = choose|i: int| 0 <= i < old(batches)@.len() && #[trigger] old(batches)@[i]@.can_allocate(line@);
            assert(start[i] == old(batches)@[i]@);
            assert(start.contains(start[i]));
            assert(sorted.to_multiset().count(start[i]) > 0);
            assert(sorted.contains(start[i]));
        }
        if r is Ok {
            let i = choose|i: int| #[trigger] first_fit_index(sorted, line@, i);
            assert(sorted.contains(sorted[i]));
            assert(start.to_multiset().count(sorted[i]) > 0);
            assert(start.contains(sorted[i]));
            let k = choose|k: int| 0 <= k < start.len() && start[k] == sorted[i];
            assert(old(batches)@[k]@ == start[k]);
        }
    }
    r
}


/// Allocating a line of the batch's SKU that is not yet allocated and that
/// the batch has room for lowers the available quantity by exactly the
/// line's quantity.
pub proof fn lemma_allocate_reduces_available(b: Batch, l: OrderLine)
    requires
        b.wf(),
        l@.sku == b@.sku,
        l@.qty <= b@.available(),
        !b@.allocations.contains(l@),
    ensures
        b@.allocate(l@).available() == b@.available() - l@.qty,
{
    assert(b@.allocations.push(l@).drop_last() =~= b@.allocations);
}

/// Allocating the same line twice has the effect of allocating it once.
pub proof fn lemma_allocate_idempotent(b: Batch, l: OrderLine)
    requires
        b.wf(),
    ensures
        b@.allocate(l@).allocate(l@) == b@.allocate(l@),
        b@.allocate(l@).allocate(l@).available() == b@.allocate(l@).available(),
{
    let once = b@.allocate(l@);
    if b@.can_allocate(l@) && !b@.allocations.contains(l@) {
        assert(once.allocations[once.allocations.len() - 1] == l@);
        assert(once.allocations.contains(l@));
    }
}

/// Deallocating a line that is not allocated changes nothing, so the
/// available quantity stays as it was.
pub proof fn lemma_deallocate_unallocated(b: Batch, l: OrderLine)
    requires
        b.wf(),
        !b@.allocations.contains(l@),
    ensures
        b@.deallocate(l@) == b@,
        b@.deallocate(l@).available() == b@.available(),
{
}

/// A batch cannot serve a line of another SKU, nor one larger than what is
/// available; it can serve a line of its SKU that takes exactly what is
/// available.
pub proof fn lemma_can_allocate_bounds(b: Batch, l: OrderLine)
    requires
        b.wf(),
    ensures
        l@.sku != b@.sku ==> !b@.can_allocate(l@),
        l@.qty > b@.available() ==> !b@.can_allocate(l@),
        l@.sku == b@.sku && l@.qty == b@.available() ==> b@.can_allocate(l@),
{
}


impl Batch {
    pub fn reference(&self) -> (r: &str)
        ensures
            r@ == self@.reference,
    {
        self.ref_.0.as_str()
    }

    pub fn sku(&self) -> (r: &str)
        ensures
            r@ == self@.sku,
    {
        self.sku.0.as_str()
    }

    pub fn purchased_quantity(&self) -> (r: i32)
        ensures
            r == self@.purchased,
    {
        self.purchased_quantity.0
    }

    pub fn eta(&self) -> (r: Option<Date>)
        ensures
            r == self@.eta,
    {
        self.eta
    }

    /// The allocated lines, each once, in no particular order.
    pub fn allocations(&self) -> (r: &[OrderLine])
        ensures
            r@.map_values(|l: OrderLine| l@) == self@.allocations,
    {
        self.allocations.as_slice()
    }
}

impl DomainError {
    /// A human-readable description of the error.
    pub fn message(&self) -> (r: &'static str)
        ensures
            r@ == "Out of stock"@,
    {
        match self {
            DomainError::OutOfStock => "Out of stock",
        }
    }
}

} // verus!
