//! The kill chain: what a side has been *told* to shoot first.
//!
//! A side's doctrine is an ordered priority list; each entry names an asset **id**, a
//! **role** an asset's stat block declares, an asset **class** (`unit`, `air_defence`,
//! `c2`, `air`), or [`ALL`], which names everything. A target sits in the tier of the
//! first entry that names it, or in the implicit bottom tier below the list.
//!
//! There is no "no doctrine": the default is the single tier `["all"]`, one tier holding
//! every target, which is the undirected behaviour by construction.
//!
//! Every name is checked against the field when a simulation is built: a priority entry
//! naming nothing is an error, not an empty tier.

use vstd::prelude::*;
use crate::state::Side;
use crate::events::FireTarget;
use crate::names::{lex_lt, lemma_lex_strict_total, name_order, same_name};

verus! {

/// The universal-match name: a tier containing everything not already claimed above it.
pub const ALL: &'static str = "all";

/// The universal-match name, as characters.
pub open spec fn all_name() -> Seq<char> {
    seq!['a', 'l', 'l']
}

/// Compare a name with [`ALL`].
fn is_all(name: &str) -> (r: bool)
    ensures
        r == (name@ == all_name()),
{
    let r = same_name(name, ALL);
    proof {
        reveal_strlit("all");
        assert(ALL@ =~= all_name());
    }
    r
}


/// How a declared priority combines with the kill-probability payoff.
#[derive(Clone, Copy, PartialEq, Eq, Debug, Structural)]
pub enum DoctrineMode {
    /// Tier decides first; the payoff only breaks ties *within* a tier. Solved one tier
    /// at a time, highest first, which makes the ordering exact.
    Strict,
    /// Priority multiplies the target's value; the payoff still decides.
    Weighted,
}

impl Default for DoctrineMode {
    /// A side that bothered to write a priority list means it: strict by default.
    fn default() -> (r: DoctrineMode)
        ensures
            r == DoctrineMode::Strict,
    {
        DoctrineMode::Strict
    }
}

/// The names one asset answers to: its id, its declared role, and its class.
pub struct TargetNames<'a> {
    /// The asset's scenario id.
    pub id: &'a str,
    /// Its stat block's `role`, if it declared one.
    pub role: Option<&'a str>,
    /// Its asset class: `unit`, `air_defence`, `c2` or `air`.
    pub class: &'a str,
}

impl<'a> TargetNames<'a> {
    /// Does `name` refer to this asset? [`ALL`] refers to everything; otherwise the name
    /// must be the id, the role, or the class. A role never masks the class.
    pub open spec fn answers_to(&self, name: Seq<char>) -> bool {
        ||| name == all_name()
        ||| self.id@ == name
        ||| (self.role matches Some(r) && r@ == name)
        ||| self.class@ == name
    }

    /// Does `name` refer to this asset?
    pub fn matches(&self, name: &str) -> (r: bool)
        ensures
            r == self.answers_to(name@),
    {
        if is_all(name) || same_name(self.id, name) {
            return true;
        }
        let by_role = match self.role {
            Some(role) => same_name(role, name),
            None => false,
        };
        by_role || same_name(self.class, name)
    }
}

/// The names in a list of strings.
pub open spec fn name_seq(v: Seq<String>) -> Seq<Seq<char>> {
    v.map_values(|s: String| s@)
}

/// The first entry at or after `k` that names the asset, or the list's length.
pub open spec fn first_match_from(priority: Seq<Seq<char>>, names: TargetNames, k: int) -> int
    decreases priority.len() - k,
{
    if k < 0 || k >= priority.len() {
        priority.len() as int
    } else if names.answers_to(priority[k]) {
        k
    } else {
        first_match_from(priority, names, k + 1)
    }
}

/// The tier a target sits in: the index of the first entry naming it, or the bottom tier
/// (the list's length) if nothing does.
pub open spec fn tier_spec(priority: Seq<Seq<char>>, names: TargetNames) -> int {
    first_match_from(priority, names, 0)
}

/// The tier is the first entry that names the asset: it names the asset, nothing above
/// it does, and the bottom tier is used exactly when no entry names it.
pub proof fn law_first_match_decides_the_tier(priority: Seq<Seq<char>>, names: TargetNames)
    ensures
        0 <= tier_spec(priority, names) <= priority.len(),
        tier_spec(priority, names) < priority.len() ==> names.answers_to(
            priority[tier_spec(priority, names)],
        ),
        forall|k: int|
            0 <= k < tier_spec(priority, names) ==> !names.answers_to(#[trigger] priority[k]),
{
    lemma_first_match_from(priority, names, 0);
}

/// A role never masks the class: an asset answers to its id, its class and [`ALL`]
/// whatever role it declares, and to its role as well when it has one.
pub proof fn law_a_role_never_masks_the_class(names: TargetNames)
    ensures
        names.answers_to(names.id@),
        names.answers_to(names.class@),
        names.answers_to(all_name()),
        names.role matches Some(r) ==> names.answers_to(r@),
{
}

proof fn lemma_first_match_from(priority: Seq<Seq<char>>, names: TargetNames, k: int)
    requires
        0 <= k <= priority.len(),
    ensures
        k <= first_match_from(priority, names, k) <= priority.len(),
        first_match_from(priority, names, k) < priority.len() ==> names.answers_to(
            priority[first_match_from(priority, names, k)],
        ),
        forall|j: int|
            k <= j < first_match_from(priority, names, k) ==> !names.answers_to(#[trigger] priority[j]),
    decreases priority.len() - k,
{
    if k < priority.len() && !names.answers_to(priority[k]) {
        lemma_first_match_from(priority, names, k + 1);
    }
}

/// A side's target priority. Always present: the undirected case is one tier holding
/// everything.
#[derive(Clone, Debug)]
pub struct Doctrine {
    /// Ordered, highest priority first. Each entry names an id, a role, or a class.
    pub priority: Vec<String>,
    /// How the priority is applied.
    pub mode: DoctrineMode,
}

impl Doctrine {
    /// The priority entries as names.
    pub open spec fn names(&self) -> Seq<Seq<char>> {
        name_seq(self.priority@)
    }

    /// One tier holding everything: the undirected model, expressed as a fire plan.
    pub fn undirected() -> (r: Doctrine)
        ensures
            r.names() == seq![all_name()],
            r.mode == DoctrineMode::Strict,
    {
        let all = ALL.to_owned();
        let mut priority: Vec<String> = Vec::new();
        priority.push(all);
        let d = Doctrine { priority, mode: DoctrineMode::Strict };
        proof {
            reveal_strlit("all");
            assert(ALL@ =~= all_name());
            assert(d.names() =~= seq![all_name()]);
        }
        d
    }

    /// Is this the default: one tier, everything equal?
    pub fn is_undirected(&self) -> (r: bool)
        ensures
            r == (self.names().len() == 1 && self.names()[0] == all_name()),
    {
        self.priority.len() == 1 && is_all(self.priority[0].as_str())
    }

    /// Which tier a target sits in: its index in the priority list, or the bottom tier
    /// (`priority.len()`) if nothing names it. The **first** matching entry wins.
    pub fn tier_of(&self, names: &TargetNames) -> (r: usize)
        ensures
            r == tier_spec(self.names(), *names),
            r <= self.priority@.len(),
    {
        let ghost p = self.names();
        let mut k: usize = 0;
        while k < self.priority.len()
            invariant
                p == self.names(),
                k <= self.priority@.len(),
                first_match_from(p, *names, 0) == first_match_from(p, *names, k as int),
            decreases self.priority@.len() - k,
        {
            if names.matches(self.priority[k].as_str()) {
                return k;
            }
            k += 1;
        }
        k
    }

    /// How many tiers there are, including the implicit bottom one.
    pub fn tier_count(&self) -> (r: usize)
        requires
            self.priority@.len() < usize::MAX,
        ensures
            r == self.priority@.len() + 1,
    {
        self.priority.len() + 1
    }
}

impl Default for Doctrine {
    /// One tier holding everything: the undirected model, expressed as a fire plan.
    fn default() -> (r: Doctrine)
        ensures
            r.names() == seq![all_name()],
            r.mode == DoctrineMode::Strict,
    {
        Doctrine::undirected()
    }
}

/// The default fire plan is undirected, and in it every asset sits in the top tier.
pub proof fn law_default_is_one_tier(names: TargetNames)
    ensures
        tier_spec(seq![all_name()], names) == 0,
{
    assert(names.answers_to(seq![all_name()][0]));
}

/// One directly ordered engagement: this shooter, that target, no solver involved.
#[derive(Clone, Debug)]
pub struct Order {
    /// Id of the shooter: a unit or an air-defence battery.
    pub shooter: String,
    /// Id of what it is to engage.
    pub target: String,
}


/// A sequence of names sorted strictly (so without repeats).
pub open spec fn strictly_sorted(v: Seq<Seq<char>>) -> bool {
    forall|i: int, j: int| 0 <= i < j < v.len() ==> lex_lt(#[trigger] v[i], #[trigger] v[j])
}

/// `items` joined with `sep` between consecutive items.
pub open spec fn join(items: Seq<Seq<char>>, sep: Seq<char>) -> Seq<char>
    decreases items.len(),
{
    if items.len() == 0 {
        Seq::empty()
    } else if items.len() == 1 {
        items[0]
    } else {
        join(items.drop_last(), sep) + sep + items.last()
    }
}

/// The separator [`Vocabulary::known`] lists names with.
pub open spec fn list_separator() -> Seq<char> {
    seq![',', ' ']
}

/// The first entry at or after `k` that is not in `known`, if any.
pub open spec fn first_unknown_from(names: Seq<Seq<char>>, known: Set<Seq<char>>, k: int) -> Option<Seq<char>>
    decreases names.len() - k,
{
    if k < 0 || k >= names.len() {
        None
    } else if !known.contains(names[k]) {
        Some(names[k])
    } else {
        first_unknown_from(names, known, k + 1)
    }
}

/// A vocabulary after adding everything one asset answers to: [`ALL`], its id, its
/// class, and its role if it declared one.
pub open spec fn with_names(known: Set<Seq<char>>, names: TargetNames) -> Set<Seq<char>> {
    let base = known.insert(all_name()).insert(names.id@).insert(names.class@);
    match names.role {
        Some(r) => base.insert(r@),
        None => base,
    }
}

/// The vocabulary of a whole field: every name any of its assets answers to.
pub open spec fn field_vocabulary(field: Seq<TargetNames>) -> Set<Seq<char>>
    decreases field.len(),
{
    if field.len() == 0 {
        Set::empty()
    } else {
        with_names(field_vocabulary(field.drop_last()), field.last())
    }
}

/// Validation at load time and the per-epoch lookup cannot disagree: every name an
/// asset answers to is in any vocabulary the asset was added to, so a priority entry
/// that [`check_doctrine`] accepts is one that can match.
pub proof fn law_vocabulary_knows_every_match(known: Set<Seq<char>>, names: TargetNames, name: Seq<char>)
    requires
        names.answers_to(name),
    ensures
        with_names(known, names).contains(name),
{
}

/// Conversely, the field's vocabulary holds nothing beyond what its assets answer to.
pub proof fn law_vocabulary_is_exact(field: Seq<TargetNames>, name: Seq<char>)
    requires
        field.len() > 0,
    ensures
        field_vocabulary(field).contains(name) <==> exists|i: int|
            0 <= i < field.len() && (#[trigger] field[i]).answers_to(name),
    decreases field.len(),
{
    if field.len() > 1 {
        law_vocabulary_is_exact(field.drop_last(), name);
        if field_vocabulary(field).contains(name) {
            if field.last().answers_to(name) {
                assert(field[field.len() - 1].answers_to(name));
            } else {
                let i = choose|i: int|
                    0 <= i < field.drop_last().len() && (#[trigger] field.drop_last()[i]).answers_to(name);
                assert(field[i] == field.drop_last()[i]);
            }
        }
        if exists|i: int| 0 <= i < field.len() && (#[trigger] field[i]).answers_to(name) {
            let i = choose|i: int| 0 <= i < field.len() && (#[trigger] field[i]).answers_to(name);
            if i < field.len() - 1 {
                assert(field.drop_last()[i] == field[i]);
            }
        }
    } else {
        if field_vocabulary(field).contains(name) {
            assert(field_vocabulary(field.drop_last()) =~= Set::<Seq<char>>::empty());
            assert(field[0].answers_to(name));
        }
    }
}

/// Every name anything on the field answers to: the vocabulary a priority list may use.
///
/// Kept sorted, so it lists what *would* have matched in a stable order.
#[derive(Debug)]
pub struct Vocabulary {
    names: Vec<String>,
}

impl View for Vocabulary {
    type V = Seq<Seq<char>>;

    /// The names, in sorted order.
    closed spec fn view(&self) -> Seq<Seq<char>> {
        name_seq(self.names@)
    }
}

impl Vocabulary {
    #[verifier::type_invariant]
    closed spec fn sorted(&self) -> bool {
        strictly_sorted(name_seq(self.names@))
    }

    /// The names as a set.
    pub open spec fn contents(&self) -> Set<Seq<char>> {
        self@.to_set()
    }

    /// An empty vocabulary.
    pub fn new() -> (r: Vocabulary)
        ensures
            r@ == Seq::<Seq<char>>::empty(),
    {
        let r = Vocabulary { names: Vec::new() };
        assert(name_seq(r.names@) =~= Seq::<Seq<char>>::empty());
        r
    }

    /// Add one name, keeping the list sorted; a name already present is not repeated.
    fn insert_name(&mut self, name: &str)
        ensures
            final(self).contents() == old(self).contents().insert(name@),
    {
        proof {
            use_type_invariant(&*self);
        }
        let ghost old_v = self@;
        let mut k: usize = 0;
        while k < self.names.len()
            invariant
                old_v == self@,
                strictly_sorted(old_v),
                k <= self.names@.len(),
                forall|i: int| 0 <= i < k ==> lex_lt(#[trigger] old_v[i], name@),
            ensures
                k <= self.names@.len(),
                forall|i: int| 0 <= i < k ==> lex_lt(#[trigger] old_v[i], name@),
                k < self.names@.len() ==> lex_lt(name@, old_v[k as int]),
            decreases self.names@.len() - k,
        {
            let o = name_order(self.names[k].as_str(), name);
            if o == 0 {
                assert(old_v[k as int] == name@);
                assert(old_v.to_set().insert(name@) =~= old_v.to_set());
                return;
            }
            if o > 0 {
                break;
            }
            k += 1;
        }
        let ghost new_v = old_v.insert(k as int, name@);
        proof {
            assert forall|i: int, j: int| 0 <= i < j < new_v.len() implies lex_lt(
                #[trigger] new_v[i],
                #[trigger] new_v[j],
            ) by {
                if k < old_v.len() {
                    assert(lex_lt(name@, old_v[k as int]));
                }
                if j == k {
                    assert(lex_lt(old_v[i], name@));
                } else if i == k {
                    assert(new_v[j] == old_v[j - 1]);
                    if j - 1 > k {
                        assert(lex_lt(old_v[k as int], old_v[j - 1]));
                        lemma_lex_strict_total(name@, old_v[k as int], old_v[j - 1]);
                    }
                } else if i < k && j > k {
                    assert(lex_lt(old_v[i], name@));
                    assert(lex_lt(name@, old_v[j - 1])) by {
                        if j - 1 > k {
                            assert(lex_lt(old_v[k as int], old_v[j - 1]));
                            lemma_lex_strict_total(name@, old_v[k as int], old_v[j - 1]);
                        }
                    }
                    lemma_lex_strict_total(old_v[i], name@, old_v[j - 1]);
                } else if j < k {
                    assert(new_v[i] == old_v[i] && new_v[j] == old_v[j]);
                } else {
                    assert(new_v[i] == old_v[i - 1] && new_v[j] == old_v[j - 1]);
                }
            }
            assert(new_v.to_set() =~= old_v.to_set().insert(name@)) by {
                assert forall|x: Seq<char>| new_v.to_set().contains(x) implies old_v.to_set().insert(
                    name@,
                ).contains(x) by {
                    let i = choose|i: int| 0 <= i < new_v.len() && new_v[i] == x;
                    if i < k {
                        assert(old_v[i] == x);
                    } else if i > k {
                        assert(old_v[i - 1] == x);
                    }
                }
                assert forall|x: Seq<char>| old_v.to_set().insert(name@).contains(x) implies new_v.to_set().contains(
                    x,
                ) by {
                    if x == name@ {
                        assert(new_v[k as int] == x);
                    } else {
                        let i = choose|i: int| 0 <= i < old_v.len() && old_v[i] == x;
                        if i < k {
                            assert(new_v[i] == x);
                        } else {
                            assert(new_v[i + 1] == x);
                        }
                    }
                }
            }
        }
        let mut names: Vec<String> = Vec::new();
        assert(name_seq(names@) =~= Seq::<Seq<char>>::empty());
        std::mem::swap(&mut names, &mut self.names);
        names.insert(k, name.to_owned());
        assert(name_seq(names@) =~= new_v);
        self.names = names;
    }

    /// Add everything one asset answers to: [`ALL`], its id, its class, and its role if it
    /// declared one.
    pub fn insert(&mut self, names: &TargetNames)
        ensures
            strictly_sorted(final(self)@),
            final(self).contents() == with_names(old(self).contents(), *names),
    {
        proof {
            reveal_strlit("all");
            assert(ALL@ =~= all_name());
        }
        self.insert_name(ALL);
        self.insert_name(names.id);
        self.insert_name(names.class);
        if let Some(r) = names.role {
            self.insert_name(r);
        }
        proof {
            use_type_invariant(&*self);
        }
    }

    /// Is `name` in the vocabulary?
    pub fn contains(&self, name: &str) -> (r: bool)
        ensures
            r == self.contents().contains(name@),
    {
        let mut k: usize = 0;
        while k < self.names.len()
            invariant
                k <= self.names@.len(),
                forall|i: int| 0 <= i < k ==> #[trigger] self@[i] != name@,
            decreases self.names@.len() - k,
        {
            if same_name(self.names[k].as_str(), name) {
                assert(self@[k as int] == name@);
                return true;
            }
            k += 1;
        }
        assert(!self@.to_set().contains(name@)) by {
            if self@.to_set().contains(name@) {
                let i = choose|i: int| 0 <= i < self@.len() && self@[i] == name@;
                assert(self@[i] != name@);
            }
        }
        false
    }

    /// The first priority entry that names nothing on the field, if any.
    pub fn first_unmatched(&self, priority: &[String]) -> (r: Option<String>)
        ensures
            match r {
                Some(s) => first_unknown_from(name_seq(priority@), self.contents(), 0) == Some(s@),
                None => first_unknown_from(name_seq(priority@), self.contents(), 0) is None,
            },
    {
        let ghost p = name_seq(priority@);
        let mut k: usize = 0;
        while k < priority.len()
            invariant
                p == name_seq(priority@),
                k <= priority@.len(),
                first_unknown_from(p, self.contents(), 0) == first_unknown_from(p, self.contents(), k as int),
            decreases priority@.len() - k,
        {
            if !self.contains(priority[k].as_str()) {
                return Some(priority[k].clone());
            }
            k += 1;
        }
        None
    }

    /// Everything that *would* have matched, sorted and separated by `", "`, for an error
    /// message.
    pub fn known(&self) -> (r: String)
        ensures
            r@ == join(self@, list_separator()),
            strictly_sorted(self@),
    {
        proof {
            use_type_invariant(self);
        }
        let sep = ", ";
        proof {
            reveal_strlit(", ");
            assert(sep@ =~= list_separator());
        }
        let mut out = String::new();
        let mut k: usize = 0;
        while k < self.names.len()
            invariant
                sep@ == list_separator(),
                k <= self.names@.len(),
                out@ == join(self@.take(k as int), list_separator()),
            decreases self.names@.len() - k,
        {
            assert(self@.take(k + 1).drop_last() =~= self@.take(k as int));
            if k > 0 {
                out.append(sep);
            } else {
                assert(self@.take(0) =~= Seq::<Seq<char>>::empty());
            }
            out.append(self.names[k].as_str());
            k += 1;
        }
        assert(self@.take(self@.len() as int) =~= self@);
        out
    }
}

impl Default for Vocabulary {
    /// An empty vocabulary.
    fn default() -> (r: Vocabulary)
        ensures
            r@ == Seq::<Seq<char>>::empty(),
    {
        Vocabulary::new()
    }
}


/// Which end of an order names something unknown.
#[derive(Clone, Copy, PartialEq, Eq, Debug, Structural)]
pub enum OrderRole {
    /// The ordered shooter.
    Shooter,
    /// The ordered target.
    Target,
}

/// A doctrine or an order that names nothing on the field.
#[derive(Clone, Debug)]
pub enum DoctrineError {
    /// A priority entry that is not an id, role or class on the field, with everything
    /// that would have matched.
    UnknownPriority {
        /// The side whose doctrine it is.
        side: Side,
        /// The entry.
        name: String,
        /// Every name on the field, sorted, separated by `", "`.
        known: String,
    },
    /// An order whose shooter or target is not on the field.
    UnknownOrder {
        /// The side whose order it is.
        side: Side,
        /// Which end of the order.
        role: OrderRole,
        /// The name it gave.
        id: String,
    },
}

/// What is wrong with one side's plan, as [`check_doctrine`] finds it.
pub enum Problem {
    /// A priority entry names nothing.
    Priority(Seq<char>),
    /// An order names nothing at the given end.
    Order(OrderRole, Seq<char>),
}

/// The first order at or after `k` with an end that names nothing, shooter before target.
pub open spec fn first_bad_order_from(orders: Seq<Order>, known: Set<Seq<char>>, k: int) -> Option<Problem>
    decreases orders.len() - k,
{
    if k < 0 || k >= orders.len() {
        None
    } else if !known.contains(orders[k].shooter@) {
        Some(Problem::Order(OrderRole::Shooter, orders[k].shooter@))
    } else if !known.contains(orders[k].target@) {
        Some(Problem::Order(OrderRole::Target, orders[k].target@))
    } else {
        first_bad_order_from(orders, known, k + 1)
    }
}

/// The first problem in one side's plan: its priority list first, then its orders.
pub open spec fn side_problem(doctrine: Doctrine, orders: Seq<Order>, known: Set<Seq<char>>) -> Option<Problem> {
    match first_unknown_from(doctrine.names(), known, 0) {
        Some(name) => Some(Problem::Priority(name)),
        None => first_bad_order_from(orders, known, 0),
    }
}

/// Both sides use the default plan and give no orders: nothing to check.
pub open spec fn plans_trivial(doctrine: [Doctrine; 2], orders: [Vec<Order>; 2]) -> bool {
    &&& doctrine@[0].names() == seq![all_name()]
    &&& doctrine@[1].names() == seq![all_name()]
    &&& orders@[0]@.len() == 0
    &&& orders@[1]@.len() == 0
}

/// The first problem [`check_doctrine`] reports, Blue's plan before Red's, or `None`.
pub open spec fn plan_problem(field: Seq<TargetNames>, doctrine: [Doctrine; 2], orders: [Vec<Order>; 2]) -> Option<(Side, Problem)> {
    if plans_trivial(doctrine, orders) {
        None
    } else {
        let known = field_vocabulary(field);
        match side_problem(doctrine@[0], orders@[0]@, known) {
            Some(p) => Some((Side::Blue, p)),
            None => match side_problem(doctrine@[1], orders@[1]@, known) {
                Some(p) => Some((Side::Red, p)),
                None => None,
            },
        }
    }
}

/// The first order with an unknown end, checked against a built vocabulary.
fn first_bad_order(vocab: &Vocabulary, orders: &Vec<Order>) -> (r: Option<(OrderRole, String)>)
    ensures
        match first_bad_order_from(orders@, vocab.contents(), 0) {
            None => r is None,
            Some(Problem::Order(role, name)) => r matches Some(x) && x.0 == role && x.1@ == name,
            Some(Problem::Priority(_)) => false,
        },
{
    let mut k: usize = 0;
    while k < orders.len()
        invariant
            k <= orders@.len(),
            first_bad_order_from(orders@, vocab.contents(), 0) == first_bad_order_from(
                orders@,
                vocab.contents(),
                k as int,
            ),
        decreases orders@.len() - k,
    {
        if !vocab.contains(orders[k].shooter.as_str()) {
            return Some((OrderRole::Shooter, orders[k].shooter.clone()));
        }
        if !vocab.contains(orders[k].target.as_str()) {
            return Some((OrderRole::Target, orders[k].target.clone()));
        }
        k += 1;
    }
    None
}

proof fn lemma_first_unknown_from(names: Seq<Seq<char>>, known: Set<Seq<char>>, k: int)
    requires
        0 <= k,
    ensures
        first_unknown_from(names, known, k) is None <==> (forall|j: int| k <= j < names.len() ==> known.contains(#[trigger] names[j])),
    decreases names.len() - k,
{
    if k < names.len() {
        lemma_first_unknown_from(names, known, k + 1);
    }
}

proof fn lemma_first_bad_order_from(orders: Seq<Order>, known: Set<Seq<char>>, k: int)
    requires
        0 <= k,
    ensures
        first_bad_order_from(orders, known, k) is None <==> (forall|j: int|
            k <= j < orders.len() ==> known.contains((#[trigger] orders[j]).shooter@) && known.contains(
                orders[j].target@,
            )),
    decreases orders.len() - k,
{
    if k < orders.len() {
        lemma_first_bad_order_from(orders, known, k + 1);
    }
}

/// Every name a plan uses must be on the field: when the plan is not the default one,
/// the check finds no problem exactly when every priority entry and both ends of every
/// order, of both sides, are names something on the field answers to. Whatever the
/// priority lists say, an order naming nothing on the field is refused.
pub proof fn law_every_order_end_must_be_on_the_field(field: Seq<TargetNames>, doctrine: [Doctrine; 2], orders: [Vec<Order>; 2])
    ensures
        !plans_trivial(doctrine, orders) ==> (plan_problem(field, doctrine, orders) is None <==> (forall|s: int, j: int|
            0 <= s < 2 && 0 <= j < doctrine@[s].names().len() ==> field_vocabulary(field).contains(
                #[trigger] doctrine@[s].names()[j],
            )) && (forall|s: int, j: int|
            0 <= s < 2 && 0 <= j < orders@[s]@.len() ==> field_vocabulary(field).contains(
                (#[trigger] orders@[s]@[j]).shooter@,
            ) && field_vocabulary(field).contains(orders@[s]@[j].target@))),
{
    let known = field_vocabulary(field);
    lemma_first_unknown_from(doctrine@[0].names(), known, 0);
    lemma_first_unknown_from(doctrine@[1].names(), known, 0);
    lemma_first_bad_order_from(orders@[0]@, known, 0);
    lemma_first_bad_order_from(orders@[1]@, known, 0);
    if !plans_trivial(doctrine, orders) {
        if plan_problem(field, doctrine, orders) is None {
            assert forall|s: int, j: int|
                0 <= s < 2 && 0 <= j < doctrine@[s].names().len() implies known.contains(
                #[trigger] doctrine@[s].names()[j],
            ) by {
                if s == 0 {
                } else {
                }
            }
            assert forall|s: int, j: int|
                0 <= s < 2 && 0 <= j < orders@[s]@.len() implies known.contains(
                (#[trigger] orders@[s]@[j]).shooter@,
            ) && known.contains(orders@[s]@[j].target@) by {
                if s == 0 {
                } else {
                }
            }
        } else {
            if (forall|s: int, j: int|
                0 <= s < 2 && 0 <= j < doctrine@[s].names().len() ==> known.contains(
                    #[trigger] doctrine@[s].names()[j],
                )) && (forall|s: int, j: int|
                0 <= s < 2 && 0 <= j < orders@[s]@.len() ==> known.contains(
                    (#[trigger] orders@[s]@[j]).shooter@,
                ) && known.contains(orders@[s]@[j].target@)) {
                assert forall|j: int| 0 <= j < doctrine@[0].names().len() implies known.contains(#[trigger] doctrine@[0].names()[j]) by {
                    assert(known.contains(doctrine@[0].names()[j]));
                }
                assert forall|j: int| 0 <= j < doctrine@[1].names().len() implies known.contains(#[trigger] doctrine@[1].names()[j]) by {
                    assert(known.contains(doctrine@[1].names()[j]));
                }
                assert forall|j: int| 0 <= j < orders@[0]@.len() implies known.contains((#[trigger] orders@[0]@[j]).shooter@) && known.contains(orders@[0]@[j].target@) by {
                    assert(known.contains(orders@[0]@[j].shooter@));
                }
                assert forall|j: int| 0 <= j < orders@[1]@.len() implies known.contains((#[trigger] orders@[1]@[j]).shooter@) && known.contains(orders@[1]@[j].target@) by {
                    assert(known.contains(orders@[1]@[j].shooter@));
                }
                assert(false);
            }
        }
    }
}

/// Every priority entry and every order must name something on the field.
///
/// A tier that matches nothing is not an empty tier: it is a doctrine nobody is
/// following. The error names what *would* have worked, because the usual cause is a
/// typo or a role never declared. Blue's plan is checked before Red's; within a plan the
/// priority list before the orders, and an order's shooter before its target.
pub fn check_doctrine(field: &[TargetNames], doctrine: &[Doctrine; 2], orders: &[Vec<Order>; 2]) -> (r: Result<(), DoctrineError>)
    ensures
        match (r, plan_problem(field@, *doctrine, *orders)) {
            (Ok(()), None) => true,
            (Err(DoctrineError::UnknownPriority { side, name, known }), Some((s, Problem::Priority(n)))) => {
                &&& side == s
                &&& name@ == n
                &&& exists|v: Seq<Seq<char>>| #![auto]
                    strictly_sorted(v) && v.to_set() == field_vocabulary(field@) && known@ == join(
                        v,
                        list_separator(),
                    )
            },
            (Err(DoctrineError::UnknownOrder { side, role, id }), Some((s, Problem::Order(ro, n)))) => {
                side == s && role == ro && id@ == n
            },
            _ => false,
        },
{
    let blue = &doctrine[0];
    let red = &doctrine[1];
    let blue_orders = &orders[0];
    let red_orders = &orders[1];
    assert(*blue == doctrine@[0] && *red == doctrine@[1]);
    assert(*blue_orders == orders@[0] && *red_orders == orders@[1]);
    let trivial = blue.is_undirected() && red.is_undirected() && blue_orders.len() == 0
        && red_orders.len() == 0;
    if trivial {
        assert(blue.names() =~= seq![all_name()]);
        assert(red.names() =~= seq![all_name()]);
        return Ok(());
    }
    let mut vocab = Vocabulary::new();
    let mut i: usize = 0;
    while i < field.len()
        invariant
            i <= field@.len(),
            vocab.contents() == field_vocabulary(field@.take(i as int)),
        decreases field@.len() - i,
    {
        proof {
            assert(field@.take(i + 1).drop_last() =~= field@.take(i as int));
            assert(field@.take(i as int + 1).last() == field@[i as int]);
        }
        vocab.insert(&field[i]);
        i += 1;
    }
    proof {
        assert(field@.take(field@.len() as int) =~= field@);
    }
    let ghost known = field_vocabulary(field@);
    let sides = [Side::Blue, Side::Red];
    let mut k: usize = 0;
    while k < 2
        invariant
            k <= 2,
            sides@ == seq![Side::Blue, Side::Red],
            vocab.contents() == known,
            known == field_vocabulary(field@),
            !plans_trivial(*doctrine, *orders),
            forall|j: int| 0 <= j < k ==> side_problem(doctrine@[j], orders@[j]@, known) is None,
        decreases 2 - k,
    {
        let side = sides[k];
        if let Some(bad) = vocab.first_unmatched(&doctrine[k].priority) {
            return Err(DoctrineError::UnknownPriority { side, name: bad, known: vocab.known() });
        }
        if let Some((role, id)) = first_bad_order(&vocab, &orders[k]) {
            return Err(DoctrineError::UnknownOrder { side, role, id });
        }
        k += 1;
    }
    Ok(())
}


/// The positions among the first `upto` whose tier is `t`, in increasing order.
pub open spec fn tier_members(tiers: Seq<usize>, t: int, upto: int) -> Seq<usize>
    decreases upto,
{
    if upto <= 0 {
        Seq::empty()
    } else {
        let before = tier_members(tiers, t, upto - 1);
        if tiers[upto - 1] == t {
            before.push((upto - 1) as usize)
        } else {
            before
        }
    }
}

/// The non-empty tiers among the first `upto`, highest priority first, each as its
/// members.
pub open spec fn tier_groups_upto(tiers: Seq<usize>, upto: int) -> Seq<Seq<usize>>
    decreases upto,
{
    if upto <= 0 {
        Seq::empty()
    } else {
        let before = tier_groups_upto(tiers, upto - 1);
        let g = tier_members(tiers, upto - 1, tiers.len() as int);
        if g.len() > 0 {
            before.push(g)
        } else {
            before
        }
    }
}

/// Split targets into doctrine tiers: `tiers[k]` is target `k`'s tier, and the result
/// lists, highest priority first, every tier below `tier_count` that holds a target,
/// each as its targets' positions in increasing order.
///
/// This is the shape strict doctrine is solved in: one assignment per group, highest
/// first, so a shooter that can reach a priority target spends itself there before it
/// is offered anything lower.
pub fn tier_groups(tiers: &[usize], tier_count: usize) -> (r: Vec<Vec<usize>>)
    ensures
        r@.map_values(|g: Vec<usize>| g@) == tier_groups_upto(tiers@, tier_count as int),
{
    let mut groups: Vec<Vec<usize>> = Vec::new();
    let mut t: usize = 0;
    while t < tier_count
        invariant
            t <= tier_count,
            groups@.map_values(|g: Vec<usize>| g@) == tier_groups_upto(tiers@, t as int),
        decreases tier_count - t,
    {
        let mut g: Vec<usize> = Vec::new();
        let mut k: usize = 0;
        while k < tiers.len()
            invariant
                k <= tiers@.len(),
                g@ == tier_members(tiers@, t as int, k as int),
            decreases tiers@.len() - k,
        {
            if tiers[k] == t {
                g.push(k);
            }
            k += 1;
        }
        let ghost before = groups@;
        if g.len() > 0 {
            groups.push(g);
            assert(groups@.map_values(|g: Vec<usize>| g@) =~= before.map_values(|g: Vec<usize>| g@).push(
                tier_members(tiers@, t as int, tiers@.len() as int),
            ));
        }
        t += 1;
    }
    groups
}

/// A tier's members are exactly the positions in that tier, in increasing order.
pub proof fn law_tier_members_exact(tiers: Seq<usize>, t: int, upto: int)
    requires
        0 <= upto <= tiers.len(),
        tiers.len() <= usize::MAX,
    ensures
        forall|k: int|
            0 <= k < upto && tiers[k] == t ==> tier_members(tiers, t, upto).contains(k as usize),
        forall|i: int|
            0 <= i < tier_members(tiers, t, upto).len() ==> {
                let k = #[trigger] tier_members(tiers, t, upto)[i];
                k < upto && tiers[k as int] == t
            },
        forall|i: int, j: int|
            0 <= i < j < tier_members(tiers, t, upto).len() ==> #[trigger] tier_members(tiers, t, upto)[i]
                < #[trigger] tier_members(tiers, t, upto)[j],
    decreases upto,
{
    if upto > 0 {
        law_tier_members_exact(tiers, t, upto - 1);
        let before = tier_members(tiers, t, upto - 1);
        let now = tier_members(tiers, t, upto);
        assert forall|k: int| 0 <= k < upto && tiers[k] == t implies now.contains(k as usize) by {
            if k < upto - 1 {
                let i = choose|i: int| 0 <= i < before.len() && before[i] == k as usize;
                if tiers[upto - 1] == t {
                    assert(now[i] == k as usize);
                }
            } else {
                assert(now[now.len() - 1] == k as usize);
            }
        }
        assert forall|i: int| 0 <= i < now.len() implies {
            let k = #[trigger] now[i];
            k < upto && tiers[k as int] == t
        } by {
            if i < before.len() {
                assert(now[i] == before[i]);
            }
        }
        assert forall|i: int, j: int| 0 <= i < j < now.len() implies #[trigger] now[i] < #[trigger] now[j] by {
            if j < before.len() {
                assert(now[i] == before[i] && now[j] == before[j]);
            } else {
                assert(now[i] == before[i]);
                assert(before[i] < upto - 1);
            }
        }
    }
}

/// The groups partition the targets in tiers below `upto`: every group is non-empty and
/// holds one tier's targets, tiers rise strictly from group to group, and every target in
/// such a tier is in a group.
pub proof fn law_tier_groups_partition(tiers: Seq<usize>, upto: int)
    requires
        0 <= upto,
        tiers.len() <= usize::MAX,
    ensures
        forall|g: int|
            0 <= g < tier_groups_upto(tiers, upto).len() ==> #[trigger] tier_groups_upto(tiers, upto)[g].len()
                > 0,
        forall|g: int, i: int|
            0 <= g < tier_groups_upto(tiers, upto).len() && 0 <= i < tier_groups_upto(tiers, upto)[g].len()
                ==> (#[trigger] tier_groups_upto(tiers, upto)[g][i]) < tiers.len() && tiers[tier_groups_upto(
                tiers,
                upto,
            )[g][i] as int] == tiers[tier_groups_upto(tiers, upto)[g][0] as int] && tiers[tier_groups_upto(
                tiers,
                upto,
            )[g][0] as int] < upto,
        forall|g1: int, g2: int|
            0 <= g1 < g2 < tier_groups_upto(tiers, upto).len() ==> tiers[(#[trigger] tier_groups_upto(
                tiers,
                upto,
            )[g1])[0] as int] < tiers[(#[trigger] tier_groups_upto(tiers, upto)[g2])[0] as int],
        forall|k: int|
            0 <= k < tiers.len() && tiers[k] < upto ==> exists|g: int|
                0 <= g < tier_groups_upto(tiers, upto).len() && #[trigger] tier_groups_upto(
                    tiers,
                    upto,
                )[g].contains(k as usize),
    decreases upto,
{
    if upto > 0 {
        law_tier_groups_partition(tiers, upto - 1);
        law_tier_members_exact(tiers, upto - 1, tiers.len() as int);
        let before = tier_groups_upto(tiers, upto - 1);
        let now = tier_groups_upto(tiers, upto);
        let m = tier_members(tiers, upto - 1, tiers.len() as int);
        assert forall|k: int| 0 <= k < tiers.len() && tiers[k] < upto implies exists|g: int|
            0 <= g < now.len() && #[trigger] now[g].contains(k as usize) by {
            if tiers[k] < upto - 1 {
                let g = choose|g: int| 0 <= g < before.len() && #[trigger] before[g].contains(k as usize);
                assert(now[g] == before[g]);
            } else {
                assert(m.contains(k as usize));
                assert(now[now.len() - 1] == m);
            }
        }
        assert forall|g: int, i: int|
            0 <= g < now.len() && 0 <= i < now[g].len() implies (#[trigger] now[g][i]) < tiers.len()
                && tiers[now[g][i] as int] == tiers[now[g][0] as int] && tiers[now[g][0] as int] < upto by {
            if g < before.len() {
                assert(now[g] == before[g]);
            } else {
                assert(now[g] == m);
                assert(m[i] < tiers.len() && tiers[m[i] as int] == upto - 1);
                assert(m[0] < tiers.len() && tiers[m[0] as int] == upto - 1);
            }
        }
        assert forall|g1: int, g2: int| 0 <= g1 < g2 < now.len() implies tiers[(#[trigger] now[g1])[0] as int]
            < tiers[(#[trigger] now[g2])[0] as int] by {
            assert(now[g1] == before[g1]);
            assert(before[g1].len() > 0);
            if g2 < before.len() {
                assert(now[g2] == before[g2]);
            } else {
                assert(now[g2] == m);
                assert(tiers[m[0] as int] == upto - 1);
                assert(tiers[before[g1][0] as int] < upto - 1);
            }
        }
    }
}


/// An asset as doctrine sees it: its scenario id and its stat block's declared role.
#[derive(Clone, Debug)]
pub struct Named {
    /// The asset's scenario id.
    pub id: String,
    /// Its stat block's `role`, if it declared one.
    pub role: Option<String>,
}

/// The class name of a ground unit.
pub open spec fn unit_class() -> Seq<char> {
    seq!['u', 'n', 'i', 't']
}

/// The class name of an air-defence battery.
pub open spec fn air_defence_class() -> Seq<char> {
    seq!['a', 'i', 'r', '_', 'd', 'e', 'f', 'e', 'n', 'c', 'e']
}

/// The class name of a C2 post.
pub open spec fn c2_class() -> Seq<char> {
    seq!['c', '2']
}

/// The class name of an airframe.
pub open spec fn air_class() -> Seq<char> {
    seq!['a', 'i', 'r']
}

/// `names` are the names of asset `x` of class `class`.
pub open spec fn names_of(names: TargetNames, x: Named, class: Seq<char>) -> bool {
    &&& names.id@ == x.id@
    &&& names.class@ == class
    &&& match (names.role, x.role) {
        (Some(a), Some(b)) => a@ == b@,
        (None, None) => true,
        _ => false,
    }
}

fn names_with<'a>(x: &'a Named, class: &'a str) -> (r: TargetNames<'a>)
    ensures
        names_of(r, *x, class@),
{
    let role = match &x.role {
        Some(r) => Some(r.as_str()),
        None => None,
    };
    TargetNames { id: x.id.as_str(), role, class }
}

/// The names a ground-fire target answers to: its id and role from its own list, and
/// its class (`unit`, `air_defence` or `c2`).
pub fn target_names<'a>(t: FireTarget, units: &'a [Named], batteries: &'a [Named], posts: &'a [Named]) -> (r: TargetNames<'a>)
    requires
        match t {
            FireTarget::Unit(i) => i < units@.len(),
            FireTarget::AirDefence(i) => i < batteries@.len(),
            FireTarget::C2(i) => i < posts@.len(),
        },
    ensures
        match t {
            FireTarget::Unit(i) => names_of(r, units@[i as int], unit_class()),
            FireTarget::AirDefence(i) => names_of(r, batteries@[i as int], air_defence_class()),
            FireTarget::C2(i) => names_of(r, posts@[i as int], c2_class()),
        },
{
    proof {
        reveal_strlit("unit");
        reveal_strlit("air_defence");
        reveal_strlit("c2");
    }
    match t {
        FireTarget::Unit(i) => {
            let r = names_with(&units[i], "unit");
            assert("unit"@ =~= unit_class());
            r
        },
        FireTarget::AirDefence(i) => {
            let r = names_with(&batteries[i], "air_defence");
            assert("air_defence"@ =~= air_defence_class());
            r
        },
        FireTarget::C2(i) => {
            let r = names_with(&posts[i], "c2");
            assert("c2"@ =~= c2_class());
            r
        },
    }
}

/// Every name on the field, for validating doctrine and orders: units, then batteries,
/// then posts, then airframes, each list in order. Airframes are not ground-fire targets
/// but may be named by an order or by air-defence doctrine.
pub fn field_names<'a>(units: &'a [Named], batteries: &'a [Named], posts: &'a [Named], air: &'a [Named]) -> (r: Vec<TargetNames<'a>>)
    requires
        units@.len() + batteries@.len() + posts@.len() + air@.len() <= usize::MAX,
    ensures
        r@.len() == units@.len() + batteries@.len() + posts@.len() + air@.len(),
        forall|i: int| 0 <= i < units@.len() ==> names_of(#[trigger] r@[i], units@[i], unit_class()),
        forall|i: int|
            0 <= i < batteries@.len() ==> names_of(
                #[trigger] r@[units@.len() + i],
                batteries@[i],
                air_defence_class(),
            ),
        forall|i: int|
            0 <= i < posts@.len() ==> names_of(
                #[trigger] r@[units@.len() + batteries@.len() + i],
                posts@[i],
                c2_class(),
            ),
        forall|i: int|
            0 <= i < air@.len() ==> names_of(
                #[trigger] r@[units@.len() + batteries@.len() + posts@.len() + i],
                air@[i],
                air_class(),
            ),
{
    proof {
        reveal_strlit("unit");
        reveal_strlit("air_defence");
        reveal_strlit("c2");
        reveal_strlit("air");
    }
    assert("unit"@ =~= unit_class());
    assert("air_defence"@ =~= air_defence_class());
    assert("c2"@ =~= c2_class());
    assert("air"@ =~= air_class());
    let mut out: Vec<TargetNames<'a>> = Vec::new();
    let mut i: usize = 0;
    while i < units.len()
        invariant
            i <= units@.len(),
            out@.len() == i,
            "unit"@ == unit_class(),
            forall|q: int| 0 <= q < i ==> names_of(#[trigger] out@[q], units@[q], unit_class()),
        decreases units@.len() - i,
    {
        out.push(names_with(&units[i], "unit"));
        i += 1;
    }
    let ghost base1 = out@;
    i = 0;
    while i < batteries.len()
        invariant
            i <= batteries@.len(),
            out@.len() == units@.len() + i,
            "air_defence"@ == air_defence_class(),
            forall|q: int| 0 <= q < units@.len() ==> #[trigger] out@[q] == base1[q],
            forall|q: int| 0 <= q < units@.len() ==> names_of(#[trigger] base1[q], units@[q], unit_class()),
            forall|q: int|
                0 <= q < i ==> names_of(#[trigger] out@[units@.len() + q], batteries@[q], air_defence_class()),
        decreases batteries@.len() - i,
    {
        out.push(names_with(&batteries[i], "air_defence"));
        i += 1;
    }
    let ghost base2 = out@;
    let n2 = units.len() + batteries.len();
    i = 0;
    while i < posts.len()
        invariant
            i <= posts@.len(),
            n2 == units@.len() + batteries@.len(),
            out@.len() == n2 + i,
            "c2"@ == c2_class(),
            forall|q: int| 0 <= q < n2 ==> #[trigger] out@[q] == base2[q],
            forall|q: int| 0 <= q < i ==> names_of(#[trigger] out@[n2 + q], posts@[q], c2_class()),
        decreases posts@.len() - i,
    {
        out.push(names_with(&posts[i], "c2"));
        i += 1;
    }
    let ghost base3 = out@;
    let n3 = n2 + posts.len();
    i = 0;
    while i < air.len()
        invariant
            i <= air@.len(),
            n3 == units@.len() + batteries@.len() + posts@.len(),
            out@.len() == n3 + i,
            "air"@ == air_class(),
            forall|q: int| 0 <= q < n3 ==> #[trigger] out@[q] == base3[q],
            forall|q: int| 0 <= q < i ==> names_of(#[trigger] out@[n3 + q], air@[q], air_class()),
        decreases air@.len() - i,
    {
        out.push(names_with(&air[i], "air"));
        i += 1;
    }
    assert forall|q: int| 0 <= q < units@.len() implies names_of(#[trigger] out@[q], units@[q], unit_class()) by {
        assert(out@[q] == base3[q]);
        assert(base3[q] == base2[q]);
        assert(base2[q] == base1[q]);
    }
    assert forall|q: int| 0 <= q < batteries@.len() implies names_of(
        #[trigger] out@[units@.len() + q],
        batteries@[q],
        air_defence_class(),
    ) by {
        assert(out@[units@.len() + q] == base3[units@.len() + q]);
        assert(base3[units@.len() + q] == base2[units@.len() + q]);
    }
    assert forall|q: int| 0 <= q < posts@.len() implies names_of(
        #[trigger] out@[units@.len() + batteries@.len() + q],
        posts@[q],
        c2_class(),
    ) by {
        assert(out@[n2 + q] == base3[n2 + q]);
    }
    out
}

} // verus!
