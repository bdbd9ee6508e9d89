//! The merged order book: the best bid and ask levels of several exchanges, each side
//! sorted best first and capped at `TOP_K` levels.

use vstd::prelude::*;

use vstd::multiset::Multiset;
use vstd::std_specs::cmp::{PartialEqSpecImpl, PartialOrdSpecImpl};
use core::cmp::Ordering;

use crate::decimal::{decimal_difference, Comparison, Decimal, DecimalView};
use crate::merge::{all_of_exchange, law_merged_replaces_exchange, replaces_exchange};

verus! {

/// How many levels a side of the merged book keeps, and how many levels a snapshot
/// of one exchange may carry on each side.
pub const TOP_K: usize = 10;

/// One price level of one exchange.
#[derive(Debug, Eq)]
pub struct Level {
    pub price: Decimal,
    pub qty: Decimal,
    pub exchange_name: String,
}

impl Clone for Level {
    fn clone(&self) -> (res: Self)
        ensures
            res == *self,
    {
        Level { price: self.price, qty: self.qty, exchange_name: self.exchange_name.clone() }
    }
}

/// A level on the bid side: a higher price ranks above a lower one, and at equal
/// prices a larger quantity ranks above a smaller one.
#[derive(Debug, Eq)]
pub struct BidLevel {
    pub data: Level,
}

/// A level on the ask side: a lower price ranks above a higher one, and at equal
/// prices a larger quantity ranks above a smaller one.
#[derive(Debug, Eq)]
pub struct AskLevel {
    pub data: Level,
}

/// How `a` compares with `b`.
pub open spec fn order_of(a: int, b: int) -> Ordering {
    if a < b {
        Ordering::Less
    } else if a == b {
        Ordering::Equal
    } else {
        Ordering::Greater
    }
}

fn order_from(c: Comparison) -> (res: Ordering)
    ensures
        c == Comparison::Less ==> res == Ordering::Less,
        c == Comparison::Equal ==> res == Ordering::Equal,
        c == Comparison::Greater ==> res == Ordering::Greater,
{
    match c {
        Comparison::Less => Ordering::Less,
        Comparison::Equal => Ordering::Equal,
        Comparison::Greater => Ordering::Greater,
    }
}

/// Two levels are equal when their prices, quantities and exchanges are.
pub open spec fn same_level(a: Level, b: Level) -> bool {
    &&& a.price@.value() == b.price@.value()
    &&& a.qty@.value() == b.qty@.value()
    &&& a.exchange_name@ == b.exchange_name@
}

fn levels_equal(a: &Level, b: &Level) -> (res: bool)
    ensures
        res == same_level(*a, *b),
{
    a.price.compare(&b.price) == Comparison::Equal && a.qty.compare(&b.qty) == Comparison::Equal
        && a.exchange_name.eq(&b.exchange_name)
}

impl PartialEq for Level {
    fn eq(&self, other: &Self) -> (res: bool) {
        levels_equal(self, other)
    }
}

impl PartialEqSpecImpl for Level {
    open spec fn obeys_eq_spec() -> bool {
        true
    }

    open spec fn eq_spec(&self, other: &Level) -> bool {
        same_level(*self, *other)
    }
}

impl PartialEq for BidLevel {
    fn eq(&self, other: &Self) -> (res: bool) {
        levels_equal(&self.data, &other.data)
    }
}

impl PartialEqSpecImpl for BidLevel {
    open spec fn obeys_eq_spec() -> bool {
        true
    }

    open spec fn eq_spec(&self, other: &BidLevel) -> bool {
        same_level(self.data, other.data)
    }
}

/// Bids compare by price, then by quantity.
impl PartialOrd for BidLevel {
    fn partial_cmp(&self, other: &Self) -> (res: Option<Ordering>) {
        match self.data.price.compare(&other.data.price) {
            Comparison::Equal => Some(order_from(self.data.qty.compare(&other.data.qty))),
            c => Some(order_from(c)),
        }
    }
}

impl PartialOrdSpecImpl for BidLevel {
    open spec fn obeys_partial_cmp_spec() -> bool {
        true
    }

    open spec fn partial_cmp_spec(&self, other: &BidLevel) -> Option<Ordering> {
        let pa = self.data.price@.value();
        let pb = other.data.price@.value();
        if pa == pb {
            Some(order_of(self.data.qty@.value(), other.data.qty@.value()))
        } else {
            Some(order_of(pa, pb))
        }
    }
}

impl PartialEq for AskLevel {
    fn eq(&self, other: &Self) -> (res: bool) {
        levels_equal(&self.data, &other.data)
    }
}

impl PartialEqSpecImpl for AskLevel {
    open spec fn obeys_eq_spec() -> bool {
        true
    }

    open spec fn eq_spec(&self, other: &AskLevel) -> bool {
        same_level(self.data, other.data)
    }
}

/// Asks compare by price reversed, a lower price being greater, then by quantity.
impl PartialOrd for AskLevel {
    fn partial_cmp(&self, other: &Self) -> (res: Option<Ordering>) {
        match self.data.price.compare(&other.data.price) {
            Comparison::Less => Some(Ordering::Greater),
            Comparison::Equal => Some(order_from(self.data.qty.compare(&other.data.qty))),
            Comparison::Greater => Some(Ordering::Less),
        }
    }
}

impl PartialOrdSpecImpl for AskLevel {
    open spec fn obeys_partial_cmp_spec() -> bool {
        true
    }

    open spec fn partial_cmp_spec(&self, other: &AskLevel) -> Option<Ordering> {
        let pa = self.data.price@.value();
        let pb = other.data.price@.value();
        if pa == pb {
            Some(order_of(self.data.qty@.value(), other.data.qty@.value()))
        } else {
            Some(order_of(pb, pa))
        }
    }
}

/// The levels of one side of a book, ranked by a strict order.
pub trait Ranked: Sized {
    /// `self` ranks strictly above `other`: it comes first in the book.
    spec fn ranks_above(self, other: Self) -> bool;

    /// The level held.
    spec fn level(self) -> Level;

    /// The key by which the level ranks: of two levels, the one with the
    /// lexicographically greater key ranks above.
    spec fn rank_key(self) -> (int, int);

    /// The ranking is that of the keys, and two levels have the same key when their
    /// prices and quantities have the same values.
    proof fn lemma_rank_key(a: Self, b: Self)
        ensures
            a.ranks_above(b) == key_above(a.rank_key(), b.rank_key()),
            (a.rank_key() == b.rank_key()) == (a.level().price@.value() == b.level().price@.value()
                && a.level().qty@.value() == b.level().qty@.value()),
    ;

    /// The ranking is a strict weak order.
    proof fn lemma_strict_order(a: Self, b: Self, c: Self)
        ensures
            !a.ranks_above(a),
            a.ranks_above(b) && b.ranks_above(c) ==> a.ranks_above(c),
            a.ranks_above(b) ==> a.ranks_above(c) || c.ranks_above(b),
    ;

    fn outranks(&self, other: &Self) -> (res: bool)
        ensures
            res == self.ranks_above(*other),
    ;

    fn exchange_name(&self) -> (res: &String)
        ensures
            *res == self.level().exchange_name,
    ;

    fn from_level(level: Level) -> (res: Self)
        ensures
            res.level() == level,
    ;

    fn level_copy(&self) -> (res: Level)
        ensures
            res == self.level(),
    ;

    fn duplicate(&self) -> (res: Self)
        ensures
            res == *self,
    ;
}

/// `a` is lexicographically greater than `b`.
pub open spec fn key_above(a: (int, int), b: (int, int)) -> bool {
    a.0 > b.0 || (a.0 == b.0 && a.1 > b.1)
}

/// Lexicographic rank of two (price, quantity) pairs by their numeric values, with
/// the price compared in the given direction.
pub open spec fn ranks_by(higher_price_first: bool, a: Level, b: Level) -> bool {
    let pa = a.price@.value();
    let pb = b.price@.value();
    if pa == pb {
        a.qty@.value() > b.qty@.value()
    } else if higher_price_first {
        pa > pb
    } else {
        pa < pb
    }
}

impl Ranked for BidLevel {
    open spec fn ranks_above(self, other: Self) -> bool {
        ranks_by(true, self.data, other.data)
    }

    open spec fn level(self) -> Level {
        self.data
    }

    open spec fn rank_key(self) -> (int, int) {
        (self.data.price@.value(), self.data.qty@.value())
    }

    proof fn lemma_rank_key(a: Self, b: Self) {
    }

    proof fn lemma_strict_order(a: Self, b: Self, c: Self) {
    }

    fn outranks(&self, other: &Self) -> (res: bool) {
        match self.partial_cmp(other) {
            Some(Ordering::Greater) => true,
            _ => false,
        }
    }

    fn exchange_name(&self) -> (res: &String) {
        &self.data.exchange_name
    }

    fn from_level(level: Level) -> (res: Self) {
        BidLevel { data: level }
    }

    fn level_copy(&self) -> (res: Level) {
        self.data.clone()
    }

    fn duplicate(&self) -> (res: Self) {
        BidLevel { data: self.data.clone() }
    }
}

impl Ranked for AskLevel {
    open spec fn ranks_above(self, other: Self) -> bool {
        ranks_by(false, self.data, other.data)
    }

    open spec fn level(self) -> Level {
        self.data
    }

    open spec fn rank_key(self) -> (int, int) {
        (-self.data.price@.value(), self.data.qty@.value())
    }

    proof fn lemma_rank_key(a: Self, b: Self) {
    }

    proof fn lemma_strict_order(a: Self, b: Self, c: Self) {
    }

    fn outranks(&self, other: &Self) -> (res: bool) {
        match self.partial_cmp(other) {
            Some(Ordering::Greater) => true,
            _ => false,
        }
    }

    fn exchange_name(&self) -> (res: &String) {
        &self.data.exchange_name
    }

    fn from_level(level: Level) -> (res: Self) {
        AskLevel { data: level }
    }

    fn level_copy(&self) -> (res: Level) {
        self.data.clone()
    }

    fn duplicate(&self) -> (res: Self) {
        AskLevel { data: self.data.clone() }
    }
}

/// No level of `s` ranks above a level before it.
pub open spec fn sorted<T: Ranked>(s: Seq<T>) -> bool {
    forall|i: int, j: int| 0 <= i < j < s.len() ==> !s[j].ranks_above(s[i])
}

/// The first index at or after `from` whose level `x` ranks above, or the length.
pub open spec fn insert_position<T: Ranked>(s: Seq<T>, x: T, from: int) -> int
    decreases s.len() - from,
{
    if from >= s.len() {
        s.len() as int
    } else if x.ranks_above(s[from]) {
        from
    } else {
        insert_position(s, x, from + 1)
    }
}

/// `x` placed before the first level it ranks above: after every level that ranks
/// equal to it, so that of equal levels the one added first stays first.
pub open spec fn insert_ranked<T: Ranked>(s: Seq<T>, x: T) -> Seq<T> {
    s.insert(insert_position(s, x, 0), x)
}

/// The levels of `xs` placed one after the other into `s`.
pub open spec fn insert_all<T: Ranked>(s: Seq<T>, xs: Seq<T>) -> Seq<T>
    decreases xs.len(),
{
    if xs.len() == 0 {
        s
    } else {
        insert_ranked(insert_all(s, xs.drop_last()), xs.last())
    }
}

/// The levels of `s` that do not belong to the exchange `name`, in their order.
pub open spec fn without_exchange<T: Ranked>(s: Seq<T>, name: Seq<char>) -> Seq<T>
    decreases s.len(),
{
    if s.len() == 0 {
        s
    } else {
        let rest = without_exchange(s.drop_last(), name);
        if s.last().level().exchange_name@ == name {
            rest
        } else {
            rest.push(s.last())
        }
    }
}

/// The first `k` levels of `s`.
pub open spec fn top<T>(s: Seq<T>, k: nat) -> Seq<T> {
    if s.len() > k {
        s.take(k as int)
    } else {
        s
    }
}

/// A side of the book after a snapshot of the exchange `name` with the levels
/// `fresh`: the levels of the other exchanges, with the fresh levels placed among
/// them one after the other, capped at `TOP_K`.
pub open spec fn merged<T: Ranked>(side: Seq<T>, name: Seq<char>, fresh: Seq<T>) -> Seq<T> {
    top(insert_all(without_exchange(side, name), fresh), TOP_K as nat)
}

/// The levels held by a side of the book.
pub open spec fn levels_of<T: Ranked>(s: Seq<T>) -> Seq<Level> {
    s.map_values(|x: T| x.level())
}

// ---------------------------------------------------------------------------
// Lemmas on ranked sequences

proof fn lemma_insert_position<T: Ranked>(s: Seq<T>, x: T, from: int)
    requires
        0 <= from <= s.len(),
    ensures
        from <= insert_position(s, x, from) <= s.len(),
        forall|i: int| from <= i < insert_position(s, x, from) ==> !x.ranks_above(#[trigger] s[i]),
        insert_position(s, x, from) < s.len() ==> x.ranks_above(s[insert_position(s, x, from)]),
    decreases s.len() - from,
{
    if from < s.len() && !x.ranks_above(s[from]) {
        lemma_insert_position(s, x, from + 1);
    }
}

/// The insertion position lies within the side.
pub proof fn lemma_insert_position_bounds<T: Ranked>(s: Seq<T>, x: T)
    ensures
        0 <= insert_position(s, x, 0) <= s.len(),
{
    lemma_insert_position(s, x, 0);
}

proof fn lemma_insert_sorted<T: Ranked>(s: Seq<T>, x: T)
    requires
        sorted(s),
    ensures
        sorted(insert_ranked(s, x)),
        insert_ranked(s, x).len() == s.len() + 1,
{
    lemma_insert_position(s, x, 0);
    let p = insert_position(s, x, 0);
    let r = insert_ranked(s, x);
    assert forall|i: int, j: int| 0 <= i < j < r.len() implies !r[j].ranks_above(r[i]) by {
        if i < p && j == p {
        } else if i == p && j > p {
            T::lemma_strict_order(s[j - 1], x, s[p]);
            T::lemma_strict_order(s[p], x, s[p]);
        } else if i < p && j > p {
        } else if j < p {
        } else {
            assert(i > p);
        }
    }
}

pub(crate) proof fn lemma_insert_all_sorted<T: Ranked>(s: Seq<T>, xs: Seq<T>)
    requires
        sorted(s),
    ensures
        sorted(insert_all(s, xs)),
        insert_all(s, xs).len() == s.len() + xs.len(),
    decreases xs.len(),
{
    if xs.len() > 0 {
        lemma_insert_all_sorted(s, xs.drop_last());
        lemma_insert_sorted(insert_all(s, xs.drop_last()), xs.last());
    }
}

pub(crate) proof fn lemma_without_exchange<T: Ranked>(s: Seq<T>, name: Seq<char>)
    ensures
        without_exchange(s, name).len() <= s.len(),
        forall|i: int|
            0 <= i < without_exchange(s, name).len() ==> #[trigger] without_exchange(s, name)[i].level().exchange_name@ != name,
        forall|i: int|
            0 <= i < without_exchange(s, name).len() ==> s.contains(#[trigger] without_exchange(s, name)[i]),
        sorted(s) ==> sorted(without_exchange(s, name)),
    decreases s.len(),
{
    if s.len() > 0 {
        let init = s.drop_last();
        let rest = without_exchange(init, name);
        lemma_without_exchange(init, name);
        assert(sorted(s) ==> sorted(init));
        assert forall|i: int| 0 <= i < rest.len() implies s.contains(#[trigger] rest[i]) by {
            let k = choose|k: int| 0 <= k < init.len() && init[k] == rest[i];
            assert(s[k] == rest[i]);
        }
        if s.last().level().exchange_name@ == name {
            assert(without_exchange(s, name) == rest);
            assert forall|i: int| 0 <= i < rest.len() implies #[trigger] without_exchange(s, name)[i].level().exchange_name@ != name by {
                assert(rest[i].level().exchange_name@ != name);
            }
        } else {
            let r = rest.push(s.last());
            assert(without_exchange(s, name) == r);
            assert(s[s.len() - 1] == s.last());
            assert forall|i: int| 0 <= i < r.len() implies #[trigger] without_exchange(s, name)[i].level().exchange_name@ != name by {
                if i < rest.len() {
                    assert(r[i] == rest[i]);
                    assert(rest[i].level().exchange_name@ != name);
                } else {
                    assert(r[i] == s.last());
                }
            }
            assert forall|i: int| 0 <= i < r.len() implies s.contains(#[trigger] r[i]) by {
                if i < rest.len() {
                    assert(r[i] == rest[i]);
                } else {
                    assert(r[i] == s[s.len() - 1]);
                }
            }
            if sorted(s) {
                assert forall|i: int, j: int| 0 <= i < j < r.len() implies !r[j].ranks_above(r[i]) by {
                    if j == r.len() - 1 {
                        let k = choose|k: int| 0 <= k < init.len() && init[k] == rest[i];
                        assert(s[k] == r[i]);
                    } else {
                        assert(r[i] == rest[i] && r[j] == rest[j]);
                    }
                }
            }
        }
    }
}

pub(crate) proof fn lemma_top_sorted<T: Ranked>(s: Seq<T>, k: nat)
    requires
        sorted(s),
    ensures
        sorted(top(s, k)),
        top(s, k).len() <= k,
        top(s, k).len() <= s.len(),
{
}

// ---------------------------------------------------------------------------
// Operations on one side of the book

/// Places `x` before the first level of `side` that it ranks above.
fn insert_level<T: Ranked>(side: &mut Vec<T>, x: T)
    ensures
        final(side)@ == insert_ranked(old(side)@, x),
{
    let ghost s = side@;
    let mut p: usize = 0;
    while p < side.len() && !x.outranks(&side[p])
        invariant
            s == side@,
            0 <= p <= side.len(),
            insert_position(s, x, 0) == insert_position(s, x, p as int),
        decreases side.len() - p,
    {
        p = p + 1;
    }
    assert(insert_position(s, x, p as int) == p);
    side.insert(p, x);
}

/// The levels of `side` that do not belong to the exchange `exchange_name`.
fn remove_old_entries<T: Ranked>(side: &Vec<T>, exchange_name: &String) -> (res: Vec<T>)
    ensures
        res@ == without_exchange(side@, exchange_name@),
{
    let mut kept: Vec<T> = Vec::new();
    let mut i: usize = 0;
    while i < side.len()
        invariant
            0 <= i <= side.len(),
            kept@ == without_exchange(side@.take(i as int), exchange_name@),
        decreases side.len() - i,
    {
        let ghost prefix = side@.take(i + 1);
        assert(prefix.drop_last() == side@.take(i as int));
        assert(prefix.last() == side@[i as int]);
        if !side[i].exchange_name().eq(exchange_name) {
            kept.push(side[i].duplicate());
        }
        i = i + 1;
    }
    assert(side@.take(side.len() as int) == side@);
    kept
}

/// Keeps the first `k` levels of `side`.
fn keep_top_k<T>(side: &mut Vec<T>, k: usize)
    ensures
        final(side)@ == top(old(side)@, k as nat),
{
    if side.len() > k {
        side.truncate(k);
    }
}

/// The levels of a side, in order.
fn copy_levels<T: Ranked>(side: &Vec<T>) -> (res: Vec<Level>)
    ensures
        res@ == levels_of(side@),
{
    let mut result: Vec<Level> = Vec::new();
    let mut i: usize = 0;
    while i < side.len()
        invariant
            0 <= i <= side.len(),
            result@ == levels_of(side@.take(i as int)),
        decreases side.len() - i,
    {
        result.push(side[i].level_copy());
        i = i + 1;
        assert(levels_of(side@.take(i as int)) =~= levels_of(side@.take(i - 1)).push(side@[i - 1].level()));
    }
    assert(side@.take(side.len() as int) == side@);
    result
}

/// `merged(side, name, fresh)`, computed: the old levels of the exchange leave, the
/// fresh levels are placed one after the other, and the side is capped.
fn merge_side<T: Ranked>(side: &Vec<T>, exchange_name: &String, fresh: &Vec<T>) -> (res: Vec<T>)
    requires
        sorted(side@),
    ensures
        res@ == merged(side@, exchange_name@, fresh@),
        sorted(res@),
        res@.len() <= TOP_K,
{
    let mut result = remove_old_entries(side, exchange_name);
    let ghost base = result@;
    proof {
        lemma_without_exchange(side@, exchange_name@);
    }
    let mut i: usize = 0;
    while i < fresh.len()
        invariant
            0 <= i <= fresh.len(),
            result@ == insert_all(base, fresh@.take(i as int)),
        decreases fresh.len() - i,
    {
        proof {
            assert(fresh@.take(i + 1).drop_last() =~= fresh@.take(i as int));
        }
        insert_level(&mut result, fresh[i].duplicate());
        i = i + 1;
    }
    assert(fresh@.take(fresh.len() as int) =~= fresh@);
    proof {
        lemma_insert_all_sorted(base, fresh@);
        lemma_top_sorted(insert_all(base, fresh@), TOP_K as nat);
    }
    keep_top_k(&mut result, TOP_K);
    result
}

/// Copies of the levels of a side.
fn copy_side<T: Ranked>(side: &Vec<T>) -> (res: Vec<T>)
    ensures
        res@ == side@,
{
    let mut result: Vec<T> = Vec::new();
    let mut i: usize = 0;
    while i < side.len()
        invariant
            0 <= i <= side.len(),
            result@ == side@.take(i as int),
        decreases side.len() - i,
    {
        result.push(side[i].duplicate());
        i = i + 1;
        assert(result@ =~= side@.take(i as int));
    }
    assert(side@.take(side.len() as int) == side@);
    result
}

/// The level that a raw `[price, quantity]` pair of the exchange `name` makes.
pub open spec fn raw_level(raw: [Decimal; 2], name: String) -> Level {
    Level { price: raw@[0], qty: raw@[1], exchange_name: name }
}

/// The bid levels that a snapshot brings, in its order.
pub open spec fn snapshot_bids(snapshot: OrderBookSnapshot) -> Seq<BidLevel> {
    Seq::new(
        snapshot.bids@.len(),
        |i: int| BidLevel { data: raw_level(snapshot.bids@[i], snapshot.exchange_name) },
    )
}

/// The ask levels that a snapshot brings, in its order.
pub open spec fn snapshot_asks(snapshot: OrderBookSnapshot) -> Seq<AskLevel> {
    Seq::new(
        snapshot.asks@.len(),
        |i: int| AskLevel { data: raw_level(snapshot.asks@[i], snapshot.exchange_name) },
    )
}

/// The levels that the raw pairs `raw` of the exchange `name` make.
fn fresh_levels<T: Ranked>(raw: &Vec<[Decimal; 2]>, name: &String) -> (res: Vec<T>)
    ensures
        res@.len() == raw@.len(),
        forall|i: int| 0 <= i < raw@.len() ==> #[trigger] res@[i].level() == raw_level(raw@[i], *name),
{
    let mut result: Vec<T> = Vec::new();
    let mut i: usize = 0;
    while i < raw.len()
        invariant
            0 <= i <= raw.len(),
            result@.len() == i,
            forall|j: int| 0 <= j < i ==> #[trigger] result@[j].level() == raw_level(raw@[j], *name),
        decreases raw.len() - i,
    {
        let pair = &raw[i];
        let level = Level { price: pair[0], qty: pair[1], exchange_name: name.clone() };
        result.push(T::from_level(level));
        i = i + 1;
    }
    result
}

/// Levels in the order of a side: no level ranks above one before it.
pub open spec fn levels_in_order(higher_price_first: bool, s: Seq<Level>) -> bool {
    forall|i: int, j: int| 0 <= i < j < s.len() ==> !ranks_by(higher_price_first, s[j], s[i])
}

proof fn lemma_levels_in_order<T: Ranked>(higher_price_first: bool, s: Seq<T>)
    requires
        sorted(s),
        forall|a: T, b: T| #[trigger] a.ranks_above(b) == ranks_by(higher_price_first, a.level(), b.level()),
    ensures
        levels_in_order(higher_price_first, levels_of(s)),
{
    assert forall|i: int, j: int| 0 <= i < j < levels_of(s).len() implies !ranks_by(
        higher_price_first,
        levels_of(s)[j],
        levels_of(s)[i],
    ) by {
        assert(!s[j].ranks_above(s[i]));
    }
}

/// The difference of decimals does not fit a decimal.
#[derive(Debug, PartialEq, Eq, Structural, Clone, Copy)]
pub struct SpreadOverflow;

/// The spread of a book's sides, each best first: the best ask price less the best bid
/// price; `None` where a side is empty, `SpreadOverflow` where the difference does not
/// fit a decimal.
pub fn try_spread(bids: &Vec<Level>, asks: &Vec<Level>) -> (res: Result<Option<Decimal>, SpreadOverflow>)
    ensures
        bids.len() == 0 || asks.len() == 0 ==> res == Ok::<Option<Decimal>, SpreadOverflow>(None),
        bids.len() > 0 && asks.len() > 0 ==> match res {
            Ok(Some(d)) => decimal_difference(asks@[0].price@, bids@[0].price@) == Some(d@),
            Ok(None) => false,
            Err(_) => decimal_difference(asks@[0].price@, bids@[0].price@) is None,
        },
{
    if bids.len() == 0 || asks.len() == 0 {
        return Ok(None);
    }
    match asks[0].price.checked_sub(&bids[0].price) {
        Some(d) => Ok(Some(d)),
        None => Err(SpreadOverflow),
    }
}

/// The spread of a book's sides, each best first: the best ask price less the best bid
/// price; `None` where a side is empty.
pub fn spread(bids: &Vec<Level>, asks: &Vec<Level>) -> (res: Option<Decimal>)
    requires
        bids.len() > 0 && asks.len() > 0 ==> decimal_difference(asks@[0].price@, bids@[0].price@) is Some,
    ensures
        bids.len() == 0 || asks.len() == 0 ==> res is None,
        bids.len() > 0 && asks.len() > 0 ==> (res matches Some(d) && decimal_difference(
            asks@[0].price@,
            bids@[0].price@,
        ) == Some(d@)),
{
    match try_spread(bids, asks) {
        Ok(s) => s,
        Err(_) => {
            proof {
                assert(false);
            }
            None
        },
    }
}

/// The levels that a snapshot brings all belong to its exchange.
pub proof fn law_snapshot_levels_of_its_exchange(snapshot: OrderBookSnapshot)
    ensures
        all_of_exchange(snapshot_bids(snapshot), snapshot.exchange_name@),
        all_of_exchange(snapshot_asks(snapshot), snapshot.exchange_name@),
{
}

/// The latest order book snapshot of one exchange for one symbol: its best bids and
/// asks as `[price, quantity]` pairs, best first.
#[derive(Debug, PartialEq, Eq, Clone)]
pub struct OrderBookSnapshot {
    pub bids: Vec<[Decimal; 2]>,
    pub asks: Vec<[Decimal; 2]>,
    pub exchange_name: String,
    pub symbol: String,
}

/// The mathematical content of a snapshot: its `[price, quantity]` pairs as
/// decimal views, and its names.
pub struct SnapshotView {
    pub bids: Seq<(DecimalView, DecimalView)>,
    pub asks: Seq<(DecimalView, DecimalView)>,
    pub exchange_name: Seq<char>,
    pub symbol: Seq<char>,
}

/// The views of a raw `[price, quantity]` pair.
pub open spec fn raw_pair(raw: [Decimal; 2]) -> (DecimalView, DecimalView) {
    (raw@[0]@, raw@[1]@)
}

impl View for OrderBookSnapshot {
    type V = SnapshotView;

    open spec fn view(&self) -> SnapshotView {
        SnapshotView {
            bids: self.bids@.map_values(|r: [Decimal; 2]| raw_pair(r)),
            asks: self.asks@.map_values(|r: [Decimal; 2]| raw_pair(r)),
            exchange_name: self.exchange_name@,
            symbol: self.symbol@,
        }
    }
}

impl OrderBookSnapshot {
    /// A snapshot with no levels and empty names.
    pub fn new() -> (res: OrderBookSnapshot)
        ensures
            res.bids@ == Seq::<[Decimal; 2]>::empty(),
            res.asks@ == Seq::<[Decimal; 2]>::empty(),
            res.exchange_name@ == Seq::<char>::empty(),
            res.symbol@ == Seq::<char>::empty(),
    {
        OrderBookSnapshot {
            bids: Vec::new(),
            asks: Vec::new(),
            exchange_name: String::new(),
            symbol: String::new(),
        }
    }
}

/// The book of one symbol merged over several exchanges: on each side at most
/// `TOP_K` levels, best first.
pub struct MergedOrderBook {
    bids: Vec<BidLevel>,
    asks: Vec<AskLevel>,
}

impl MergedOrderBook {
    #[verifier::type_invariant]
    spec fn inv(self) -> bool {
        &&& sorted(self.bids@)
        &&& sorted(self.asks@)
        &&& self.bids@.len() <= TOP_K
        &&& self.asks@.len() <= TOP_K
    }

    /// The bid side, best first.
    pub closed spec fn bids(self) -> Seq<BidLevel> {
        self.bids@
    }

    /// The ask side, best first.
    pub closed spec fn asks(self) -> Seq<AskLevel> {
        self.asks@
    }

    /// Both sides are in order and capped.
    pub open spec fn well_formed(self) -> bool {
        &&& sorted(self.bids())
        &&& sorted(self.asks())
        &&& self.bids().len() <= TOP_K
        &&& self.asks().len() <= TOP_K
    }

    /// An empty book.
    pub fn new() -> (res: MergedOrderBook)
        ensures
            res.bids() == Seq::<BidLevel>::empty(),
            res.asks() == Seq::<AskLevel>::empty(),
            res.well_formed(),
    {
        MergedOrderBook { bids: Vec::new(), asks: Vec::new() }
    }

    /// Empties both sides.
    pub fn clear(&mut self)
        ensures
            final(self).bids() == Seq::<BidLevel>::empty(),
            final(self).asks() == Seq::<AskLevel>::empty(),
            final(self).well_formed(),
    {
        proof {
            use_type_invariant(&*self);
        }
        self.bids = Vec::new();
        self.asks = Vec::new();
    }

    /// Replaces the levels of the snapshot's exchange by the snapshot's levels: the
    /// old levels of that exchange leave, the new ones are placed among the levels of
    /// the other exchanges after every level that ranks equal to them, and each side
    /// keeps its best `TOP_K` levels.
    pub fn merge_snapshot(&mut self, snapshot: OrderBookSnapshot)
        requires
            snapshot.bids.len() <= TOP_K,
            snapshot.asks.len() <= TOP_K,
        ensures
            final(self).bids() == merged(
                old(self).bids(),
                snapshot.exchange_name@,
                snapshot_bids(snapshot),
            ),
            final(self).asks() == merged(
                old(self).asks(),
                snapshot.exchange_name@,
                snapshot_asks(snapshot),
            ),
            final(self).well_formed(),
            replaces_exchange(
                old(self).bids(),
                snapshot.exchange_name@,
                snapshot_bids(snapshot),
                final(self).bids(),
            ),
            replaces_exchange(
                old(self).asks(),
                snapshot.exchange_name@,
                snapshot_asks(snapshot),
                final(self).asks(),
            ),
    {
        proof {
            use_type_invariant(&*self);
            law_snapshot_levels_of_its_exchange(snapshot);
            law_merged_replaces_exchange(self.bids@, snapshot.exchange_name@, snapshot_bids(snapshot));
            law_merged_replaces_exchange(self.asks@, snapshot.exchange_name@, snapshot_asks(snapshot));
        }
        let fresh_bids: Vec<BidLevel> = fresh_levels(&snapshot.bids, &snapshot.exchange_name);
        assert forall|i: int| 0 <= i < fresh_bids@.len() implies fresh_bids@[i] == #[trigger] snapshot_bids(snapshot)[i] by {
            assert(fresh_bids@[i].level() == raw_level(snapshot.bids@[i], snapshot.exchange_name));
        }
        assert(fresh_bids@ =~= snapshot_bids(snapshot));
        let fresh_asks: Vec<AskLevel> = fresh_levels(&snapshot.asks, &snapshot.exchange_name);
        assert forall|i: int| 0 <= i < fresh_asks@.len() implies fresh_asks@[i] == #[trigger] snapshot_asks(snapshot)[i] by {
            assert(fresh_asks@[i].level() == raw_level(snapshot.asks@[i], snapshot.exchange_name));
        }
        assert(fresh_asks@ =~= snapshot_asks(snapshot));
        let bids = merge_side(&self.bids, &snapshot.exchange_name, &fresh_bids);
        let asks = merge_side(&self.asks, &snapshot.exchange_name, &fresh_asks);
        *self = MergedOrderBook { bids, asks };
    }

    /// Takes the bid levels out of the book, best first: highest price first, and at
    /// equal prices largest quantity first.
    pub fn drain_sorted_bids(&mut self) -> (res: Vec<Level>)
        ensures
            res@ == levels_of(old(self).bids()),
            levels_in_order(true, res@),
            final(self).bids() == Seq::<BidLevel>::empty(),
            final(self).asks() == old(self).asks(),
            final(self).well_formed(),
    {
        proof {
            use_type_invariant(&*self);
            lemma_levels_in_order(true, self.bids@);
        }
        let result = copy_levels(&self.bids);
        self.bids = Vec::new();
        result
    }

    /// Takes the ask levels out of the book, best first: lowest price first, and at
    /// equal prices largest quantity first.
    pub fn drain_sorted_asks(&mut self) -> (res: Vec<Level>)
        ensures
            res@ == levels_of(old(self).asks()),
            levels_in_order(false, res@),
            final(self).asks() == Seq::<AskLevel>::empty(),
            final(self).bids() == old(self).bids(),
            final(self).well_formed(),
    {
        proof {
            use_type_invariant(&*self);
            lemma_levels_in_order(false, self.asks@);
        }
        let result = copy_levels(&self.asks);
        self.asks = Vec::new();
        result
    }
}

impl Clone for MergedOrderBook {
    fn clone(&self) -> (res: Self)
        ensures
            res.bids() == self.bids(),
            res.asks() == self.asks(),
    {
        proof {
            use_type_invariant(self);
        }
        MergedOrderBook { bids: copy_side(&self.bids), asks: copy_side(&self.asks) }
    }
}

// ---------------------------------------------------------------------------
// The books of all symbols

/// The index of the first entry at or after `from` whose symbol is `symbol`.
pub open spec fn entry_of(
    entries: Seq<(String, MergedOrderBook)>,
    symbol: Seq<char>,
    from: int,
) -> Option<int>
    decreases entries.len() - from,
{
    if from < 0 || from >= entries.len() {
        None
    } else if entries[from].0@ == symbol {
        Some(from)
    } else {
        entry_of(entries, symbol, from + 1)
    }
}

proof fn lemma_entry_of(entries: Seq<(String, MergedOrderBook)>, symbol: Seq<char>, from: int)
    requires
        0 <= from,
    ensures
        match entry_of(entries, symbol, from) {
            Some(i) => from <= i < entries.len() && entries[i].0@ == symbol && forall|j: int|
                from <= j < i ==> entries[j].0@ != symbol,
            None => forall|j: int| from <= j < entries.len() ==> entries[j].0@ != symbol,
        },
    decreases entries.len() - from,
{
    if from < entries.len() && entries[from].0@ != symbol {
        lemma_entry_of(entries, symbol, from + 1);
    }
}

proof fn lemma_entry_of_unique(entries: Seq<(String, MergedOrderBook)>, symbol: Seq<char>, i: int)
    requires
        0 <= i < entries.len(),
        entries[i].0@ == symbol,
        forall|j: int| 0 <= j < i ==> entries[j].0@ != symbol,
    ensures
        entry_of(entries, symbol, 0) == Some(i),
{
    lemma_entry_of(entries, symbol, 0);
    match entry_of(entries, symbol, 0) {
        Some(k) => {
            if k < i {
                assert(entries[k].0@ != symbol);
            } else if k > i {
                assert(entries[i].0@ != symbol);
            }
        },
        None => {
            assert(entries[i].0@ != symbol);
        },
    }
}

/// The merged books of several symbols, each under its symbol.
pub struct OrderBooks {
    books: Vec<(String, MergedOrderBook)>,
}

/// No symbol has two entries.
pub open spec fn distinct_symbols(entries: Seq<(String, MergedOrderBook)>) -> bool {
    forall|i: int, j: int| 0 <= i < j < entries.len() ==> entries[i].0@ != entries[j].0@
}

impl OrderBooks {
    #[verifier::type_invariant]
    spec fn inv(self) -> bool {
        distinct_symbols(self.books@)
    }

    /// The symbols, in the order in which their first snapshot came.
    pub closed spec fn symbols(self) -> Seq<Seq<char>> {
        self.books@.map_values(|e: (String, MergedOrderBook)| e.0@)
    }

    /// The book of `symbol`, if a snapshot of it came.
    pub closed spec fn book(self, symbol: Seq<char>) -> Option<MergedOrderBook> {
        match entry_of(self.books@, symbol, 0) {
            Some(i) => Some(self.books@[i].1),
            None => None,
        }
    }

    /// No book yet.
    pub fn new() -> (res: OrderBooks)
        ensures
            res.symbols() == Seq::<Seq<char>>::empty(),
            forall|symbol: Seq<char>| res.book(symbol) is None,
    {
        let res = OrderBooks { books: Vec::new() };
        assert(res.symbols() =~= Seq::<Seq<char>>::empty());
        res
    }

    /// Merges a snapshot into the book of its symbol, which starts empty at the
    /// symbol's first snapshot; the books of the other symbols stay as they were.
    pub fn merge_snapshot(&mut self, snapshot: OrderBookSnapshot)
        requires
            snapshot.bids.len() <= TOP_K,
            snapshot.asks.len() <= TOP_K,
        ensures
            ({
                let before = old(self).book(snapshot.symbol@);
                let old_bids = match before {
                    Some(b) => b.bids(),
                    None => Seq::<BidLevel>::empty(),
                };
                let old_asks = match before {
                    Some(b) => b.asks(),
                    None => Seq::<AskLevel>::empty(),
                };
                &&& final(self).book(snapshot.symbol@) matches Some(b)
                &&& b.bids() == merged(old_bids, snapshot.exchange_name@, snapshot_bids(snapshot))
                &&& b.asks() == merged(old_asks, snapshot.exchange_name@, snapshot_asks(snapshot))
                &&& b.well_formed()
            }),
            forall|s: Seq<char>| s != snapshot.symbol@ ==> final(self).book(s) == old(self).book(s),
            old(self).book(snapshot.symbol@) is Some ==> final(self).symbols() == old(self).symbols(),
            old(self).book(snapshot.symbol@) is None ==> final(self).symbols() == old(self).symbols().push(
                snapshot.symbol@,
            ),
    {
        proof {
            use_type_invariant(&*self);
        }
        let mut books: Vec<(String, MergedOrderBook)> = Vec::new();
        std::mem::swap(&mut books, &mut self.books);
        let ghost entries = books@;
        let mut i: usize = 0;
        while i < books.len() && !books[i].0.eq(&snapshot.symbol)
            invariant
                entries == books@,
                0 <= i <= books.len(),
                forall|j: int| 0 <= j < i ==> books@[j].0@ != snapshot.symbol@,
            decreases books.len() - i,
        {
            i = i + 1;
        }
        proof {
            lemma_entry_of(entries, snapshot.symbol@, 0);
        }
        let symbol = snapshot.symbol.clone();
        if i == books.len() {
            let mut book = MergedOrderBook::new();
            book.merge_snapshot(snapshot);
            books.push((symbol, book));
            proof {
                lemma_entry_of_unique(books@, symbol@, i as int);
                assert forall|s: Seq<char>| #![trigger entry_of(books@, s, 0)] s != symbol@ implies match entry_of(books@, s, 0) {
                    Some(k) => Some(books@[k].1),
                    None => None,
                } == match entry_of(entries, s, 0) {
                    Some(k) => Some(entries[k].1),
                    None => None,
                } by {
                    lemma_entry_of(books@, s, 0);
                    lemma_entry_of(entries, s, 0);
                    match entry_of(entries, s, 0) {
                        Some(k) => {
                            assert(books@[k] == entries[k]);
                            lemma_entry_of_unique(books@, s, k);
                        },
                        None => {
                            if let Some(k) = entry_of(books@, s, 0) {
                                if k < entries.len() {
                                    assert(books@[k] == entries[k]);
                                }
                            }
                        },
                    }
                }
                assert(books@.map_values(|e: (String, MergedOrderBook)| e.0@) =~= entries.map_values(
                    |e: (String, MergedOrderBook)| e.0@,
                ).push(symbol@));
            }
        } else {
            proof {
                lemma_entry_of_unique(entries, snapshot.symbol@, i as int);
            }
            let mut book = books[i].1.clone();
            book.merge_snapshot(snapshot);
            books.set(i, (symbol, book));
            proof {
                lemma_entry_of_unique(books@, symbol@, i as int);
                assert forall|s: Seq<char>| #![trigger entry_of(books@, s, 0)] s != symbol@ implies match entry_of(books@, s, 0) {
                    Some(k) => Some(books@[k].1),
                    None => None,
                } == match entry_of(entries, s, 0) {
                    Some(k) => Some(entries[k].1),
                    None => None,
                } by {
                    lemma_entry_of(books@, s, 0);
                    lemma_entry_of(entries, s, 0);
                    match entry_of(entries, s, 0) {
                        Some(k) => {
                            assert(k != i);
                            assert(books@[k] == entries[k]);
                            lemma_entry_of_unique(books@, s, k);
                        },
                        None => {
                            if let Some(k) = entry_of(books@, s, 0) {
                                if k != i {
                                    assert(books@[k] == entries[k]);
                                }
                            }
                        },
                    }
                }
                assert(books@.map_values(|e: (String, MergedOrderBook)| e.0@) =~= entries.map_values(
                    |e: (String, MergedOrderBook)| e.0@,
                ));
            }
        }
        assert(distinct_symbols(books@));
        self.books = books;
    }

    /// The book of `symbol`.
    pub fn get(&self, symbol: &String) -> (res: Option<&MergedOrderBook>)
        ensures
            match res {
                Some(b) => self.book(symbol@) == Some(*b),
                None => self.book(symbol@) is None,
            },
    {
        let mut i: usize = 0;
        while i < self.books.len() && !self.books[i].0.eq(symbol)
            invariant
                0 <= i <= self.books.len(),
                forall|j: int| 0 <= j < i ==> self.books@[j].0@ != symbol@,
            decreases self.books.len() - i,
        {
            i = i + 1;
        }
        proof {
            lemma_entry_of(self.books@, symbol@, 0);
        }
        if i == self.books.len() {
            None
        } else {
            proof {
                lemma_entry_of_unique(self.books@, symbol@, i as int);
            }
            Some(&self.books[i].1)
        }
    }

    /// How many symbols have a book.
    pub fn len(&self) -> (res: usize)
        ensures
            res == self.symbols().len(),
    {
        self.books.len()
    }

    /// The `i`th symbol and its book.
    pub fn entry(&self, i: usize) -> (res: (&String, &MergedOrderBook))
        requires
            i < self.symbols().len(),
        ensures
            res.0@ == self.symbols()[i as int],
            self.book(res.0@) == Some(*res.1),
    {
        proof {
            use_type_invariant(self);
            lemma_entry_of_unique(self.books@, self.books@[i as int].0@, i as int);
        }
        (&self.books[i].0, &self.books[i].1)
    }
}

// ---------------------------------------------------------------------------
// Laws of the merged book

pub(crate) proof fn lemma_insert_all_members<T: Ranked>(s: Seq<T>, xs: Seq<T>)
    ensures
        forall|i: int|
            0 <= i < insert_all(s, xs).len() ==> s.contains(#[trigger] insert_all(s, xs)[i])
                || xs.contains(insert_all(s, xs)[i]),
    decreases xs.len(),
{
    if xs.len() > 0 {
        let prev = insert_all(s, xs.drop_last());
        lemma_insert_all_members(s, xs.drop_last());
        lemma_insert_position(prev, xs.last(), 0);
        let p = insert_position(prev, xs.last(), 0);
        let r = insert_all(s, xs);
        assert forall|i: int| 0 <= i < r.len() implies s.contains(#[trigger] r[i]) || xs.contains(
            r[i],
        ) by {
            if i == p {
                assert(xs[xs.len() - 1] == r[i]);
            } else {
                let k = if i < p {
                    i
                } else {
                    i - 1
                };
                assert(r[i] == prev[k]);
                if !s.contains(prev[k]) {
                    let m = choose|m: int| 0 <= m < xs.drop_last().len() && xs.drop_last()[m] == prev[k];
                    assert(xs[m] == r[i]);
                }
            }
        }
    }
}

pub(crate) proof fn lemma_insert_all_multiset<T: Ranked>(s: Seq<T>, xs: Seq<T>)
    ensures
        insert_all(s, xs).to_multiset() == s.to_multiset().add(xs.to_multiset()),
    decreases xs.len(),
{
    broadcast use vstd::seq_lib::to_multiset_insert, vstd::seq_lib::to_multiset_build, vstd::multiset::group_multiset_axioms;

    if xs.len() == 0 {
        broadcast use vstd::seq_lib::group_to_multiset_ensures, vstd::multiset::lemma_multiset_empty_len;

        assert(xs.to_multiset().len() == 0);
        assert(xs.to_multiset() =~= Multiset::<T>::empty());
        assert(s.to_multiset().add(xs.to_multiset()) =~= s.to_multiset());
    } else {
        let prev = insert_all(s, xs.drop_last());
        lemma_insert_all_multiset(s, xs.drop_last());
        lemma_insert_position(prev, xs.last(), 0);
        assert(xs == xs.drop_last().push(xs.last()));
        assert(insert_all(s, xs).to_multiset() =~= s.to_multiset().add(xs.to_multiset()));
    }
}

pub(crate) proof fn lemma_insert_all_into_empty<T: Ranked>(xs: Seq<T>)
    requires
        sorted(xs),
    ensures
        insert_all(Seq::<T>::empty(), xs) == xs,
    decreases xs.len(),
{
    if xs.len() > 0 {
        let init = xs.drop_last();
        assert(sorted(init));
        lemma_insert_all_into_empty(init);
        lemma_insert_position(init, xs.last(), 0);
        let p = insert_position(init, xs.last(), 0);
        if p < init.len() {
            assert(xs.last().ranks_above(xs[p]));
            assert(!xs[xs.len() - 1].ranks_above(xs[p]));
        }
        assert(init.insert(init.len() as int, xs.last()) =~= xs);
    }
}

/// A snapshot whose levels are in order, merged into an empty side, gives its own
/// levels back, in its order.
pub proof fn law_sorted_snapshot_into_empty_book<T: Ranked>(name: Seq<char>, fresh: Seq<T>)
    requires
        sorted(fresh),
        fresh.len() <= TOP_K,
    ensures
        merged(Seq::<T>::empty(), name, fresh) == fresh,
{
    assert(without_exchange(Seq::<T>::empty(), name) == Seq::<T>::empty());
    lemma_insert_all_into_empty(fresh);
}

/// After a merge each side of the book is in order, best first, and holds at most
/// `TOP_K` levels.
pub proof fn law_merge_in_order_and_capped<T: Ranked>(side: Seq<T>, name: Seq<char>, fresh: Seq<T>)
    requires
        sorted(side),
    ensures
        sorted(merged(side, name, fresh)),
        merged(side, name, fresh).len() <= TOP_K,
{
    lemma_without_exchange(side, name);
    lemma_insert_all_sorted(without_exchange(side, name), fresh);
    lemma_top_sorted(insert_all(without_exchange(side, name), fresh), TOP_K as nat);
}

/// A merge removes the old levels of the snapshot's exchange: every level of that
/// exchange left in the side is one of the snapshot's, and every other level left was
/// in the side before.
pub proof fn law_merge_replaces_exchange<T: Ranked>(side: Seq<T>, name: Seq<char>, fresh: Seq<T>)
    ensures
        forall|i: int|
            0 <= i < merged(side, name, fresh).len() && (#[trigger] merged(
                side,
                name,
                fresh,
            )[i]).level().exchange_name@ == name ==> fresh.contains(merged(side, name, fresh)[i]),
        forall|i: int|
            0 <= i < merged(side, name, fresh).len() ==> side.contains(
                #[trigger] merged(side, name, fresh)[i],
            ) || fresh.contains(merged(side, name, fresh)[i]),
{
    let base = without_exchange(side, name);
    lemma_without_exchange(side, name);
    lemma_insert_all_members(base, fresh);
    let all = insert_all(base, fresh);
    let m = merged(side, name, fresh);
    assert forall|i: int| 0 <= i < m.len() implies (side.contains(#[trigger] m[i]) || fresh.contains(m[i]))
        && (m[i].level().exchange_name@ == name ==> fresh.contains(m[i])) by {
        assert(m[i] == all[i]);
        if base.contains(all[i]) {
            let k = choose|k: int| 0 <= k < base.len() && base[k] == all[i];
            assert(base[k].level().exchange_name@ != name);
        }
    }
}

/// The cap keeps the best levels: no level that the cap drops ranks above a level
/// that it keeps.
pub proof fn law_cap_keeps_best_levels<T: Ranked>(side: Seq<T>, name: Seq<char>, fresh: Seq<T>)
    requires
        sorted(side),
    ensures
        ({
            let all = insert_all(without_exchange(side, name), fresh);
            let kept = merged(side, name, fresh);
            &&& forall|i: int| 0 <= i < kept.len() ==> kept[i] == all[i]
            &&& forall|i: int, j: int|
                0 <= i < kept.len() <= j < all.len() ==> !(#[trigger] all[j]).ranks_above(
                    #[trigger] kept[i],
                )
        }),
{
    lemma_without_exchange(side, name);
    lemma_insert_all_sorted(without_exchange(side, name), fresh);
}

/// Capping at `a` and then at `b` is capping at the smaller of the two.
pub proof fn law_top_of_top<T>(s: Seq<T>, a: nat, b: nat)
    ensures
        top(top(s, a), b) == top(s, if a <= b {
            a
        } else {
            b
        }),
{
    assert(top(top(s, a), b) =~= top(s, if a <= b {
        a
    } else {
        b
    }));
}

/// Before the cap, a merge neither loses nor invents a level: the merged side holds
/// exactly the levels of the other exchanges and those of the snapshot.
pub proof fn law_merge_keeps_every_level<T: Ranked>(side: Seq<T>, name: Seq<char>, fresh: Seq<T>)
    ensures
        insert_all(without_exchange(side, name), fresh).to_multiset() == without_exchange(
            side,
            name,
        ).to_multiset().add(fresh.to_multiset()),
        merged(side, name, fresh) == top(
            insert_all(without_exchange(side, name), fresh),
            TOP_K as nat,
        ),
{
    lemma_insert_all_multiset(without_exchange(side, name), fresh);
}

/// A fresh level is placed after every level that ranks equal to it or above it,
/// and before every level that it ranks above: of two equal levels the one added
/// first stays first.
pub proof fn law_insert_after_equal_levels<T: Ranked>(s: Seq<T>, x: T)
    requires
        sorted(s),
    ensures
        ({
            let p = insert_position(s, x, 0);
            &&& 0 <= p <= s.len()
            &&& insert_ranked(s, x)[p] == x
            &&& forall|i: int| 0 <= i < p ==> !x.ranks_above(#[trigger] s[i])
            &&& forall|i: int| p <= i < s.len() ==> x.ranks_above(#[trigger] s[i])
        }),
{
    lemma_insert_position(s, x, 0);
    let p = insert_position(s, x, 0);
    assert forall|i: int| p <= i < s.len() implies x.ranks_above(#[trigger] s[i]) by {
        if i > p {
            assert(!s[i].ranks_above(s[p]));
            T::lemma_strict_order(x, s[p], s[i]);
        }
    }
}

} // verus!
