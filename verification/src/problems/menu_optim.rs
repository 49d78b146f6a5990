//! Subset-sum overshoot minimization.
//!
//! `MenuOptimizer` searches the power set of a base menu for a subset whose
//! total calorie count reaches a target while exceeding it by as little as
//! possible. The search is an exhaustive backtracking walk in fixed index
//! order, so the first subset attaining the minimal overshoot is the one
//! recorded.

use core::marker::PhantomData;

use vstd::prelude::*;

use super::{Pendent, Ready, Report};
use crate::decimal::{dec_digits, usize_to_string};

verus! {

/// The view of one dish: its name as a character sequence and its calories.
pub type DishView = (Seq<char>, u32);

/// The views of a menu's dishes, in menu order.
pub open spec fn menu_views(menu: Seq<(String, u32)>) -> Seq<DishView>
    decreases menu.len(),
{
    if menu.len() == 0 {
        Seq::empty()
    } else {
        menu_views(menu.drop_last()).push((menu.last().0@, menu.last().1))
    }
}

/// A menu's views line up with the menu, dish by dish.
proof fn lemma_menu_views(menu: Seq<(String, u32)>)
    ensures
        menu_views(menu).len() == menu.len(),
        forall|j: int|
            0 <= j < menu.len() ==> #[trigger] menu_views(menu)[j] == (menu[j].0@, menu[j].1),
    decreases menu.len(),
{
    if menu.len() > 0 {
        lemma_menu_views(menu.drop_last());
        assert forall|j: int| 0 <= j < menu.len() implies #[trigger] menu_views(menu)[j] == (
        menu[j].0@,
        menu[j].1,
        ) by {
            if j < menu.len() - 1 {
                assert(menu.drop_last()[j] == menu[j]);
            }
        }
    }
}

/// Appending a dish appends its view.
proof fn lemma_menu_views_push(menu: Seq<(String, u32)>, d: (String, u32))
    ensures
        menu_views(menu.push(d)) == menu_views(menu).push((d.0@, d.1)),
{
    assert(menu.push(d).drop_last() =~= menu);
}

/// The total calories of the dishes a selection picks out of `menu`.
/// Position `i` of `sel` decides whether dish `i` is taken.
pub open spec fn sel_total(menu: Seq<DishView>, sel: Seq<bool>) -> int
    decreases sel.len(),
{
    if sel.len() == 0 {
        0
    } else {
        sel_total(menu, sel.drop_last()) + if sel.last() {
            menu[sel.len() - 1].1 as int
        } else {
            0
        }
    }
}

/// The dishes a selection picks out of `menu`, in menu order.
pub open spec fn sel_dishes(menu: Seq<DishView>, sel: Seq<bool>) -> Seq<DishView>
    decreases sel.len(),
{
    if sel.len() == 0 {
        Seq::empty()
    } else {
        sel_dishes(menu, sel.drop_last()) + if sel.last() {
            seq![menu[sel.len() - 1]]
        } else {
            Seq::empty()
        }
    }
}

/// The total calories of the whole menu.
pub open spec fn total_calories(menu: Seq<DishView>) -> int
    decreases menu.len(),
{
    if menu.len() == 0 {
        0
    } else {
        total_calories(menu.drop_last()) + menu.last().1 as int
    }
}

/// No dish with index in `[a, b)` is selected.
pub open spec fn none_set(sel: Seq<bool>, a: int, b: int) -> bool {
    forall|j: int| a <= j < b ==> !sel[j]
}

/// The depth-first visiting order of the search on full selections: `a` is
/// reached before `b`. At the first index where they part, either `a` takes
/// a dish that `b` skips while `b` still takes some later dish (so `a`'s
/// branch is entered first), or `a` takes nothing from there on (so `a` is
/// the node whose candidate is checked before its extensions are explored).
pub open spec fn seen_before(a: Seq<bool>, b: Seq<bool>) -> bool {
    exists|j: int|
        #![trigger a.take(j), b.take(j)]
        0 <= j < a.len() && a.take(j) == b.take(j) && a[j] != b[j] && (if a[j] {
            !none_set(b, j, b.len() as int)
        } else {
            none_set(a, j, a.len() as int)
        })
}

/// Builds the visiting-order fact from its first-difference witness.
proof fn lemma_seen_before_at(a: Seq<bool>, b: Seq<bool>, j: int)
    requires
        0 <= j < a.len(),
        a.len() == b.len(),
        forall|i: int| 0 <= i < j ==> a[i] == b[i],
        a[j] != b[j],
        a[j] ==> !none_set(b, j, b.len() as int),
        !a[j] ==> none_set(a, j, a.len() as int),
    ensures
        seen_before(a, b),
{
    assert(a.take(j) =~= b.take(j));
}

/// A node's own selection is visited before every other selection that
/// extends the node's prefix.
proof fn lemma_all_false_first(z: Seq<bool>, sel: Seq<bool>, entry: int)
    requires
        0 <= entry <= z.len(),
        z.len() == sel.len(),
        none_set(z, entry, z.len() as int),
        forall|i: int| 0 <= i < entry ==> z[i] == sel[i],
        sel != z,
    ensures
        seen_before(z, sel),
{
    let n = z.len() as int;
    assert(!none_set(sel, entry, n)) by {
        if none_set(sel, entry, n) {
            assert(sel =~= z);
            assert(false);
        }
    }
    lemma_first_true(sel, entry, n);
    let k = choose|k: int|
        #![trigger sel[k]]
        entry <= k < n && sel[k] && none_set(sel, entry, k);
    assert forall|i: int| 0 <= i < k implies z[i] == sel[i] by {
        if i >= entry {
            assert(!z[i]);
            assert(!sel[i]);
        }
    }
    lemma_seen_before_at(z, sel, k);
}

/// Of two selections extending the same prefix, the one whose first taken
/// dish has the smaller index is visited first.
proof fn lemma_child_order(s1: Seq<bool>, s2: Seq<bool>, entry: int, k1: int, k2: int)
    requires
        s1.len() == s2.len(),
        0 <= entry <= k1 < k2 < s1.len(),
        forall|i: int| 0 <= i < entry ==> s1[i] == s2[i],
        s1[k1],
        none_set(s1, entry, k1),
        s2[k2],
        none_set(s2, entry, k2),
    ensures
        seen_before(s1, s2),
{
    assert forall|i: int| 0 <= i < k1 implies s1[i] == s2[i] by {
        if i >= entry {
            assert(!s1[i]);
            assert(!s2[i]);
        }
    }
    assert(!s2[k1]);
    assert(!none_set(s2, k1, s2.len() as int)) by {
        assert(s2[k2]);
    }
    lemma_seen_before_at(s1, s2, k1);
}

/// The well-formedness of a recorded search result: the recorded menu is
/// `None` exactly when the best overshoot still sits at its sentinel, and
/// otherwise it is a subset of the base menu witnessing that overshoot.
pub open spec fn menu_wf(
    opt: Option<Seq<DishView>>,
    diff: u32,
    target: u32,
    base: Seq<DishView>,
) -> bool {
    match opt {
        None => diff == u32::MAX,
        Some(m) => diff < u32::MAX && exists|sel: Seq<bool>|
            #![trigger sel_total(base, sel)]
            sel.len() == base.len()
                && sel_total(base, sel) >= target
                && sel_total(base, sel) - target == diff
                && m == sel_dishes(base, sel),
    }
}

/// The recorded result is the first-seen optimum of the subtree of
/// selections extending `gsel`: `selw` reaches the target with overshoot
/// `diff`, its dishes are the recorded menu, and every other selection of
/// the subtree attaining `diff` is visited after it.
pub open spec fn first_minimal(
    base: Seq<DishView>,
    target: u32,
    entry: int,
    gsel: Seq<bool>,
    selw: Seq<bool>,
    diff: u32,
    opt: Option<Seq<DishView>>,
) -> bool {
    &&& selw.len() == base.len()
    &&& selw.take(entry) == gsel
    &&& sel_total(base, selw) >= target
    &&& sel_total(base, selw) - target == diff
    &&& opt == Some(sel_dishes(base, selw))
    &&& forall|sel2: Seq<bool>|
        #![trigger sel_total(base, sel2)]
        sel2.len() == base.len() && sel2.take(entry) == gsel && sel_total(base, sel2) >= target
            && sel_total(base, sel2) - target == diff && sel2 != selw ==> seen_before(selw, sel2)
}

proof fn lemma_sel_push(menu: Seq<DishView>, sel: Seq<bool>, b: bool)
    ensures
        sel_total(menu, sel.push(b)) == sel_total(menu, sel) + if b {
            menu[sel.len() as int].1 as int
        } else {
            0
        },
        sel_dishes(menu, sel.push(b)) == sel_dishes(menu, sel) + if b {
            seq![menu[sel.len() as int]]
        } else {
            Seq::<DishView>::empty()
        },
{
    assert(sel.push(b).drop_last() =~= sel);
}

/// Dishes selected beyond index `k` being absent, a selection's total and
/// dishes are those of its prefix up to `k`.
proof fn lemma_none_suffix(menu: Seq<DishView>, sel: Seq<bool>, k: int)
    requires
        0 <= k <= sel.len(),
        none_set(sel, k, sel.len() as int),
    ensures
        sel_total(menu, sel) == sel_total(menu, sel.take(k)),
        sel_dishes(menu, sel) == sel_dishes(menu, sel.take(k)),
    decreases sel.len() - k,
{
    if k == sel.len() {
        assert(sel.take(k) =~= sel);
    } else {
        assert(!sel.last());
        assert(none_set(sel.drop_last(), k, sel.drop_last().len() as int));
        lemma_none_suffix(menu, sel.drop_last(), k);
        assert(sel.drop_last().take(k) =~= sel.take(k));
    }
}

/// A selection that picks something in `[a, b)` picks a first dish there.
proof fn lemma_first_true(sel: Seq<bool>, a: int, b: int)
    requires
        0 <= a <= b <= sel.len(),
        !none_set(sel, a, b),
    ensures
        exists|k: int|
            #![trigger sel[k]]
            a <= k < b && sel[k] && none_set(sel, a, k),
    decreases b - a,
{
    if sel[a] {
        assert(a <= a < b && sel[a] && none_set(sel, a, a));
    } else {
        assert(!none_set(sel, a + 1, b)) by {
            if none_set(sel, a + 1, b) {
                assert forall|j: int| a <= j < b implies !sel[j] by {
                    if j == a {
                    } else {
                        assert(a + 1 <= j < b);
                    }
                }
                assert(none_set(sel, a, b));
                assert(false);
            }
        }
        lemma_first_true(sel, a + 1, b);
        let k = choose|k: int|
            #![trigger sel[k]]
            a + 1 <= k < b && sel[k] && none_set(sel, a + 1, k);
        assert forall|j: int| a <= j < k implies !sel[j] by {
            if j != a {
                assert(a + 1 <= j < k);
            }
        }
        assert(a <= k < b && sel[k] && none_set(sel, a, k));
    }
}

/// A selection never outweighs the whole prefix of the menu it ranges over.
proof fn lemma_sel_total_le_prefix(menu: Seq<DishView>, sel: Seq<bool>)
    requires
        sel.len() <= menu.len(),
    ensures
        0 <= sel_total(menu, sel) <= total_calories(menu.take(sel.len() as int)),
    decreases sel.len(),
{
    if sel.len() == 0 {
        assert(total_calories(menu.take(0)) == 0);
    } else {
        lemma_sel_total_le_prefix(menu, sel.drop_last());
        let k = sel.len() - 1;
        assert(menu.take(k + 1).drop_last() =~= menu.take(k));
        assert(menu.take(k + 1).last() == menu[k]);
        assert(total_calories(menu.take(k + 1)) == total_calories(menu.take(k)) + menu[k].1 as int);
    }
}

/// A prefix of the menu never outweighs the whole menu.
proof fn lemma_prefix_le_total(menu: Seq<DishView>, k: int)
    requires
        0 <= k <= menu.len(),
    ensures
        total_calories(menu.take(k)) <= total_calories(menu),
    decreases menu.len() - k,
{
    if k == menu.len() {
        assert(menu.take(k) =~= menu);
    } else {
        assert(menu.take(k + 1).drop_last() =~= menu.take(k));
        assert(menu.take(k + 1).last() == menu[k]);
        lemma_prefix_le_total(menu, k + 1);
    }
}

/// A selection never outweighs the whole menu.
proof fn lemma_sel_total_le(menu: Seq<DishView>, sel: Seq<bool>)
    requires
        sel.len() <= menu.len(),
    ensures
        0 <= sel_total(menu, sel) <= total_calories(menu),
{
    lemma_sel_total_le_prefix(menu, sel);
    lemma_prefix_le_total(menu, sel.len() as int);
}

/// The calories of the selected dishes add up to the selection's total.
proof fn lemma_total_of_sel_dishes(menu: Seq<DishView>, sel: Seq<bool>)
    ensures
        total_calories(sel_dishes(menu, sel)) == sel_total(menu, sel),
    decreases sel.len(),
{
    if sel.len() > 0 {
        lemma_total_of_sel_dishes(menu, sel.drop_last());
        let prev = sel_dishes(menu, sel.drop_last());
        if sel.last() {
            assert(prev + seq![menu[sel.len() - 1]] =~= prev.push(menu[sel.len() - 1]));
            assert(prev.push(menu[sel.len() - 1]).drop_last() =~= prev);
        } else {
            assert(prev + Seq::<DishView>::empty() =~= prev);
        }
    }
}

/// One line of the menu report: the 1-based position, the dish name and its
/// calories.
pub open spec fn dish_line(d: DishView, idx1: nat) -> Seq<char> {
    "  "@ + dec_digits(idx1) + ": "@ + d.0 + " -> "@ + dec_digits(d.1 as nat) + " calories\n"@
}

/// The lines of the menu report, one per recorded dish.
pub open spec fn dish_lines(m: Seq<DishView>) -> Seq<char>
    decreases m.len(),
{
    if m.len() == 0 {
        Seq::empty()
    } else {
        dish_lines(m.drop_last()) + dish_line(m.last(), m.len() as nat)
    }
}

/// The subset-selection optimizer, in phase `State`.
///
/// A `Pendent` optimizer holds no result yet; the `Ready` phase is produced
/// only by [`MenuOptimizer::find_optimal_menu`], which runs the search to
/// completion.
#[derive(Debug)]
pub struct MenuOptimizer<State = Pendent> {
    optimal_menu: Option<Vec<(String, u32)>>,
    min_diff: u32,
    _marker: PhantomData<State>,
}

impl<State> MenuOptimizer<State> {
    /// A recorded menu always has a representable calorie total: it was
    /// recorded from a running total that fit in one machine word.
    #[verifier::type_invariant]
    spec fn calories_fit(self) -> bool {
        match self.optimal_menu {
            None => true,
            Some(m) => total_calories(menu_views(m@)) <= u32::MAX,
        }
    }

    /// The recorded optimal subset, as dish views.
    pub closed spec fn spec_optimal_menu(&self) -> Option<Seq<DishView>> {
        match self.optimal_menu {
            Some(m) => Some(menu_views(m@)),
            None => None,
        }
    }

    /// The recorded minimal overshoot, `u32::MAX` while none was found.
    pub closed spec fn spec_min_diff(&self) -> u32 {
        self.min_diff
    }
}

impl MenuOptimizer<Ready> {
    /// The optimal subset the search recorded, if any subset reached the
    /// target.
    pub fn optimal_menu(&self) -> (menu: &Option<Vec<(String, u32)>>)
        ensures
            match menu {
                Some(m) => self.spec_optimal_menu() == Some(menu_views(m@)),
                None => self.spec_optimal_menu() is None,
            },
    {
        &self.optimal_menu
    }
}

/// Adds up the calories of a recorded menu.
fn sum_calories(m: &Vec<(String, u32)>) -> (total: u32)
    requires
        total_calories(menu_views(m@)) <= u32::MAX,
    ensures
        total as int == total_calories(menu_views(m@)),
{
    let ghost mv = menu_views(m@);
    proof {
        lemma_menu_views(m@);
    }
    let mut total: u32 = 0;
    let mut i: usize = 0;
    while i < m.len()
        invariant
            i <= m@.len(),
            mv == menu_views(m@),
            mv.len() == m@.len(),
            forall|j: int| 0 <= j < m@.len() ==> #[trigger] mv[j] == (m@[j].0@, m@[j].1),
            total as int == total_calories(mv.take(i as int)),
            total_calories(mv) <= u32::MAX,
        decreases m@.len() - i,
    {
        proof {
            assert(mv.take(i + 1).drop_last() =~= mv.take(i as int));
            assert(mv.take(i + 1).last() == mv[i as int]);
            lemma_prefix_le_total(mv, i + 1);
            lemma_sel_total_le_prefix(mv, Seq::<bool>::new((i + 1) as nat, |_j: int| true));
            assert(total_calories(mv.take(i + 1)) == total_calories(mv.take(i as int)) + mv[i as int].1 as int);
            assert(total as int + m@[i as int].1 as int <= u32::MAX) by {
                assert(total_calories(mv.take(i + 1)) <= total_calories(mv));
            }
        }
        total = total + m[i].1;
        i += 1;
    }
    proof {
        assert(mv.take(m@.len() as int) =~= mv);
    }
    total
}

/// Copies a working menu so a snapshot of it can be recorded.
fn clone_menu(v: &Vec<(String, u32)>) -> (r: Vec<(String, u32)>)
    ensures
        menu_views(r@) == menu_views(v@),
{
    let mut r: Vec<(String, u32)> = Vec::new();
    let mut i: usize = 0;
    while i < v.len()
        invariant
            i <= v@.len(),
            menu_views(r@) == menu_views(v@.take(i as int)),
        decreases v@.len() - i,
    {
        let name = v[i].0.clone();
        let cals = v[i].1;
        let ghost nv = name@;
        let ghost rb = r@;
        r.push((name, cals));
        proof {
            lemma_menu_views_push(rb, r@.last());
            assert(v@.take(i + 1) =~= v@.take(i as int).push(v@[i as int]));
            lemma_menu_views_push(v@.take(i as int), v@[i as int]);
            assert(menu_views(r@) == menu_views(v@.take(i + 1)));
        }
        i += 1;
    }
    assert(v@.take(v@.len() as int) =~= v@);
    r
}

impl MenuOptimizer {
    /// Creates a pendent optimizer with no result recorded and the best
    /// overshoot at its sentinel.
    pub fn new() -> (r: Self)
        ensures
            r.spec_optimal_menu() is None,
            r.spec_min_diff() == u32::MAX,
    {
        Self { optimal_menu: None, min_diff: u32::MAX, _marker: PhantomData }
    }

    /// Runs the exhaustive subset search and returns the finished optimizer.
    ///
    /// The result is optimal: the recorded subset (if any) reaches the
    /// target, its overshoot is the least any subset attains, and no subset
    /// at all reaches the target when the result is `None`. Ties break
    /// deterministically: of all selections attaining the minimal
    /// overshoot, the one the fixed include-or-skip enumeration visits
    /// first is the one recorded.
    pub fn find_optimal_menu(self, target_calories: u32, base_menu: Vec<(String, u32)>) -> (r:
        MenuOptimizer<Ready>)
        requires
            self.spec_optimal_menu() is None,
            self.spec_min_diff() == u32::MAX,
            total_calories(menu_views(base_menu@)) <= u32::MAX,
        ensures
            menu_wf(
                r.spec_optimal_menu(),
                r.spec_min_diff(),
                target_calories,
                menu_views(base_menu@),
            ),
            forall|sel: Seq<bool>|
                #![trigger sel_total(menu_views(base_menu@), sel)]
                sel.len() == base_menu@.len() && sel_total(menu_views(base_menu@), sel)
                    >= target_calories ==> r.spec_min_diff() <= sel_total(
                    menu_views(base_menu@),
                    sel,
                ) - target_calories,
            r.spec_optimal_menu() is None ==> forall|sel: Seq<bool>|
                #![trigger sel_total(menu_views(base_menu@), sel)]
                sel.len() == base_menu@.len() ==> sel_total(menu_views(base_menu@), sel)
                    < target_calories,
            r.spec_optimal_menu() is Some ==> exists|selw: Seq<bool>|
                #[trigger] first_minimal(
                    menu_views(base_menu@),
                    target_calories,
                    0,
                    Seq::empty(),
                    selw,
                    r.spec_min_diff(),
                    r.spec_optimal_menu(),
                ),
    {
        let ghost base = menu_views(base_menu@);
        let mut this = self;
        let mut curr_menu: Vec<(String, u32)> = Vec::new();
        proof {
            lemma_menu_views(base_menu@);
            assert(menu_views(curr_menu@) == sel_dishes(base, Seq::empty()));
        }
        this.backtrack(target_calories, &base_menu, 0, 0, &mut curr_menu, Ghost(Seq::empty()));
        proof {
            assert forall|sel: Seq<bool>|
                sel.len() == base_menu@.len() && #[trigger] sel_total(base, sel)
                    >= target_calories implies this.min_diff <= sel_total(base, sel)
                - target_calories by {
                assert(sel.take(0) =~= Seq::<bool>::empty());
            }
            if this.optimal_menu is Some {
                assert(this.min_diff < u32::MAX);
            }
            if this.optimal_menu is None {
                assert forall|sel: Seq<bool>|
                    sel.len() == base_menu@.len() implies #[trigger] sel_total(base, sel)
                    < target_calories by {
                    if sel_total(base, sel) >= target_calories {
                        lemma_sel_total_le(base, sel);
                        if target_calories == 0 {
                            let empty_sel = Seq::<bool>::new(base.len(), |_j: int| false);
                            lemma_none_suffix(base, empty_sel, 0);
                            assert(empty_sel.take(0) =~= Seq::<bool>::empty());
                            assert(sel_total(base, empty_sel) == 0);
                            assert(this.min_diff <= 0);
                        } else {
                            assert(sel_total(base, sel) - target_calories < u32::MAX);
                        }
                        assert(false);
                    }
                }
            }
        }
        proof {
            use_type_invariant(&this);
        }
        MenuOptimizer::<Ready> {
            optimal_menu: this.optimal_menu,
            min_diff: this.min_diff,
            _marker: PhantomData,
        }
    }

    /// One node of the subset search: records the current subset when it
    /// reaches the target, then tries every further dish in index order.
    fn backtrack(
        &mut self,
        target_calories: u32,
        base_menu: &Vec<(String, u32)>,
        entry: usize,
        curr_cals: u32,
        curr_menu: &mut Vec<(String, u32)>,
        Ghost(gsel): Ghost<Seq<bool>>,
    )
        requires
            entry <= base_menu@.len(),
            gsel.len() == entry,
            menu_views(old(curr_menu)@) == sel_dishes(menu_views(base_menu@), gsel),
            curr_cals == sel_total(menu_views(base_menu@), gsel),
            total_calories(menu_views(base_menu@)) <= u32::MAX,
            menu_wf(
                old(self).spec_optimal_menu(),
                old(self).spec_min_diff(),
                target_calories,
                menu_views(base_menu@),
            ),
        ensures
            menu_wf(
                final(self).spec_optimal_menu(),
                final(self).spec_min_diff(),
                target_calories,
                menu_views(base_menu@),
            ),
            final(self).spec_min_diff() <= old(self).spec_min_diff(),
            final(curr_menu)@ == old(curr_menu)@,
            forall|sel: Seq<bool>|
                #![trigger sel_total(menu_views(base_menu@), sel)]
                sel.len() == base_menu@.len() && sel.take(entry as int) == gsel && sel_total(
                    menu_views(base_menu@),
                    sel,
                ) >= target_calories ==> final(self).spec_min_diff() <= sel_total(
                    menu_views(base_menu@),
                    sel,
                ) - target_calories,
            final(self).spec_min_diff() < old(self).spec_min_diff() ==> exists|selw: Seq<bool>|
                #[trigger] first_minimal(
                    menu_views(base_menu@),
                    target_calories,
                    entry as int,
                    gsel,
                    selw,
                    final(self).spec_min_diff(),
                    final(self).spec_optimal_menu(),
                ),
            final(self).spec_min_diff() == old(self).spec_min_diff()
                ==> final(self).spec_optimal_menu() == old(self).spec_optimal_menu(),
        decreases base_menu@.len() - entry,
    {
        let ghost base = menu_views(base_menu@);
        let ghost min_in = self.min_diff;
        let ghost menu_in = self.spec_optimal_menu();
        proof {
            use_type_invariant(&*self);
            lemma_menu_views(base_menu@);
        }
        let n = base_menu.len();
        if curr_cals >= target_calories && curr_cals - target_calories < self.min_diff {
            let recorded = clone_menu(curr_menu);
            proof {
                lemma_total_of_sel_dishes(base, gsel);
            }
            self.min_diff = curr_cals - target_calories;
            self.optimal_menu = Some(recorded);
            proof {
                let wit = gsel + Seq::<bool>::new((n - entry) as nat, |_j: int| false);
                assert(wit.take(entry as int) =~= gsel);
                assert(none_set(wit, entry as int, wit.len() as int));
                lemma_none_suffix(base, wit, entry as int);
                assert(sel_total(base, wit) == curr_cals);
                assert(sel_dishes(base, wit) == menu_views(curr_menu@));
                assert forall|sel2: Seq<bool>|
                    sel2.len() == n && sel2.take(entry as int) == gsel && #[trigger] sel_total(
                        base,
                        sel2,
                    ) >= target_calories && sel_total(base, sel2) - target_calories
                        == self.min_diff && sel2 != wit implies seen_before(wit, sel2) by {
                    assert forall|ii: int| 0 <= ii < entry implies wit[ii] == sel2[ii] by {
                        assert(wit[ii] == gsel[ii]);
                        assert(sel2.take(entry as int)[ii] == sel2[ii]);
                    }
                    lemma_all_false_first(wit, sel2, entry as int);
                }
                assert(first_minimal(
                    base,
                    target_calories,
                    entry as int,
                    gsel,
                    wit,
                    self.min_diff,
                    self.spec_optimal_menu(),
                ));
            }
        }
        proof {
            assert forall|sel: Seq<bool>|
                sel.len() == n && sel.take(entry as int) == gsel && #[trigger] sel_total(base, sel)
                    >= target_calories && none_set(sel, entry as int, n as int) implies self.min_diff
                <= sel_total(base, sel) - target_calories by {
                lemma_none_suffix(base, sel, entry as int);
            }
        }
        let ghost m0 = self.min_diff;
        let ghost cm0 = curr_menu@;
        let mut i = entry;
        while i < n
            invariant
                entry <= i <= n,
                n == base_menu@.len(),
                base == menu_views(base_menu@),
                base.len() == n,
                gsel.len() == entry,
                curr_menu@ == cm0,
                menu_views(cm0) == sel_dishes(base, gsel),
                curr_cals == sel_total(base, gsel),
                total_calories(base) <= u32::MAX,
                menu_wf(self.spec_optimal_menu(), self.spec_min_diff(), target_calories, base),
                self.min_diff <= m0,
                m0 <= min_in,
                curr_cals >= target_calories ==> self.min_diff <= curr_cals - target_calories,
                self.min_diff < min_in ==> exists|selw: Seq<bool>|
                    #[trigger] first_minimal(
                        base,
                        target_calories,
                        entry as int,
                        gsel,
                        selw,
                        self.min_diff,
                        self.spec_optimal_menu(),
                    ),
                self.min_diff == min_in ==> self.spec_optimal_menu() == menu_in,
                forall|sel: Seq<bool>|
                    #![trigger sel_total(base, sel)]
                    sel.len() == n && sel.take(entry as int) == gsel && sel_total(base, sel)
                        >= target_calories && (none_set(sel, entry as int, n as int) || exists|
                        k: int,
                    |
                        #![trigger sel[k]]
                        entry <= k < i && sel[k] && none_set(sel, entry as int, k)) ==> self.min_diff
                        <= sel_total(base, sel) - target_calories,
            decreases n - i,
        {
            let ghost minb = self.min_diff;
            let ghost menub = self.spec_optimal_menu();
            let ghost gsel2 = (gsel + Seq::<bool>::new((i - entry) as nat, |_j: int| false)).push(
                true,
            );
            proof {
                let padded = gsel + Seq::<bool>::new((i - entry) as nat, |_j: int| false);
                assert(padded.take(entry as int) =~= gsel);
                assert(none_set(padded, entry as int, padded.len() as int));
                lemma_none_suffix(base, padded, entry as int);
                lemma_sel_push(base, padded, true);
                assert(sel_total(base, gsel2) == curr_cals + base[i as int].1 as int);
                assert(sel_dishes(base, gsel2) == menu_views(cm0) + seq![base[i as int]]);
                lemma_sel_total_le(base, gsel2);
            }
            let dish_name = base_menu[i].0.clone();
            let dish_cals = base_menu[i].1;
            let ghost dn = dish_name@;
            curr_menu.push((dish_name, dish_cals));
            proof {
                lemma_menu_views(base_menu@);
                lemma_menu_views_push(cm0, curr_menu@.last());
                assert(sel_dishes(base, gsel) + seq![base[i as int]] =~= sel_dishes(
                    base,
                    gsel,
                ).push(base[i as int]));
                assert(base[i as int] == (base_menu@[i as int].0@, base_menu@[i as int].1));
                assert(curr_menu@.last().0@ == dn);
                assert(menu_views(curr_menu@) == sel_dishes(base, gsel2));
            }
            self.backtrack(
                target_calories,
                base_menu,
                i + 1,
                curr_cals + dish_cals,
                curr_menu,
                Ghost(gsel2),
            );
            curr_menu.pop();
            proof {
                assert(curr_menu@ =~= cm0);
                if self.min_diff < minb {
                    let selw2 = choose|selw: Seq<bool>|
                        #[trigger] first_minimal(
                            base,
                            target_calories,
                            i + 1,
                            gsel2,
                            selw,
                            self.min_diff,
                            self.spec_optimal_menu(),
                        );
                    assert(selw2.take(entry as int) =~= gsel) by {
                        assert forall|ii: int| 0 <= ii < entry implies selw2[ii] == gsel[ii] by {
                            assert(selw2.take(i + 1)[ii] == selw2[ii]);
                            assert(gsel2[ii] == gsel[ii]);
                        }
                    }
                    assert(selw2[i as int] == gsel2[i as int] && gsel2[i as int]) by {
                        assert(selw2.take(i + 1)[i as int] == selw2[i as int]);
                    }
                    assert(none_set(selw2, entry as int, i as int)) by {
                        assert forall|ii: int| entry <= ii < i implies !selw2[ii] by {
                            assert(selw2.take(i + 1)[ii] == selw2[ii]);
                            assert(!gsel2[ii]);
                        }
                    }
                    assert forall|sel2: Seq<bool>|
                        sel2.len() == n && sel2.take(entry as int) == gsel && #[trigger] sel_total(
                            base,
                            sel2,
                        ) >= target_calories && sel_total(base, sel2) - target_calories
                            == self.min_diff && sel2 != selw2 implies seen_before(selw2, sel2) by {
                        if none_set(sel2, entry as int, n as int) {
                            lemma_none_suffix(base, sel2, entry as int);
                            assert(sel_total(base, sel2) == curr_cals);
                            assert(minb <= curr_cals - target_calories);
                            assert(false);
                        } else {
                            lemma_first_true(sel2, entry as int, n as int);
                            let k = choose|k: int|
                                #![trigger sel2[k]]
                                entry <= k < n && sel2[k] && none_set(sel2, entry as int, k);
                            if k < i {
                                assert(exists|k2: int|
                                    #![trigger sel2[k2]]
                                    entry <= k2 < i && sel2[k2] && none_set(
                                        sel2,
                                        entry as int,
                                        k2,
                                    ));
                                assert(minb <= sel_total(base, sel2) - target_calories);
                                assert(false);
                            } else if k == i {
                                assert(sel2.take(i + 1) =~= gsel2);
                            } else {
                                assert forall|ii: int| 0 <= ii < entry implies selw2[ii]
                                    == sel2[ii] by {
                                    assert(sel2.take(entry as int)[ii] == sel2[ii]);
                                    assert(selw2[ii] == gsel[ii]);
                                }
                                lemma_child_order(selw2, sel2, entry as int, i as int, k);
                            }
                        }
                    }
                    assert(first_minimal(
                        base,
                        target_calories,
                        entry as int,
                        gsel,
                        selw2,
                        self.min_diff,
                        self.spec_optimal_menu(),
                    ));
                }
                assert forall|sel: Seq<bool>|
                    sel.len() == n && sel.take(entry as int) == gsel && #[trigger] sel_total(
                        base,
                        sel,
                    ) >= target_calories && (none_set(sel, entry as int, n as int) || exists|k: int|
                        #![trigger sel[k]]
                        entry <= k < i + 1 && sel[k] && none_set(
                            sel,
                            entry as int,
                            k,
                        )) implies self.min_diff <= sel_total(base, sel) - target_calories by {
                    if none_set(sel, entry as int, n as int) {
                    } else {
                        let k = choose|k: int|
                            #![trigger sel[k]]
                            entry <= k < i + 1 && sel[k] && none_set(sel, entry as int, k);
                        if k < i {
                            assert(exists|k2: int|
                                #![trigger sel[k2]]
                                entry <= k2 < i && sel[k2] && none_set(sel, entry as int, k2));
                        } else {
                            assert(k == i);
                            assert(sel.take(i + 1) =~= gsel2);
                        }
                    }
                }
            }
            i += 1;
        }
        proof {
            assert forall|sel: Seq<bool>|
                sel.len() == n && sel.take(entry as int) == gsel && #[trigger] sel_total(base, sel)
                    >= target_calories implies self.min_diff <= sel_total(base, sel)
                - target_calories by {
                if !none_set(sel, entry as int, n as int) {
                    lemma_first_true(sel, entry as int, n as int);
                } else {
                    lemma_none_suffix(base, sel, entry as int);
                }
            }
        }
    }
}

impl Report for MenuOptimizer<Ready> {
    open spec fn spec_report(&self) -> Seq<char> {
        match self.spec_optimal_menu() {
            Some(m) => "> Optimal menu found:\n"@ + dish_lines(m) + "#> Total calories: "@
                + dec_digits(total_calories(m) as nat),
            None => "> It was not possible to find an optimal menu for the target calories specified."@,
        }
    }

    fn report(&self) -> (text: String) {
        proof {
            use_type_invariant(&*self);
        }
        match &self.optimal_menu {
            Some(menu) => {
                let ghost mv = menu_views(menu@);
                proof {
                    lemma_menu_views(menu@);
                }
                let mut text = String::from_str("> Optimal menu found:\n");
                let mut i: usize = 0;
                while i < menu.len()
                    invariant
                        i <= menu@.len(),
                        mv == menu_views(menu@),
                        mv.len() == menu@.len(),
                        forall|j: int|
                            0 <= j < menu@.len() ==> #[trigger] mv[j] == (menu@[j].0@, menu@[j].1),
                        text@ == "> Optimal menu found:\n"@ + dish_lines(mv.take(i as int)),
                    decreases menu@.len() - i,
                {
                    text.append("  ");
                    text.append(usize_to_string(i + 1).as_str());
                    text.append(": ");
                    text.append(menu[i].0.as_str());
                    text.append(" -> ");
                    text.append(usize_to_string(menu[i].1 as usize).as_str());
                    text.append(" calories\n");
                    proof {
                        assert(mv.take(i + 1).drop_last() =~= mv.take(i as int));
                        assert(mv.take(i + 1).last() == mv[i as int]);
                        assert(text@ =~= "> Optimal menu found:\n"@ + dish_lines(mv.take(i + 1)));
                    }
                    i += 1;
                }
                let total = sum_calories(menu);
                text.append("#> Total calories: ");
                text.append(usize_to_string(total as usize).as_str());
                proof {
                    assert(mv.take(menu@.len() as int) =~= mv);
                    assert(text@ =~= "> Optimal menu found:\n"@ + dish_lines(mv)
                        + "#> Total calories: "@ + dec_digits(total_calories(mv) as nat));
                }
                text
            },
            None => String::from_str(
                "> It was not possible to find an optimal menu for the target calories specified.",
            ),
        }
    }
}

} // verus!
