//! From the outcomes of reading the names to the catalogue: the records,
//! direct and recovered, without duplicates and grouped by code.

use crate::parser::{inferred, try_infering_code_by_description_similiarity_measure};
use crate::similarity::SimilarityBound;
use crate::structs::dimensions::Dimensions;
use crate::structs::material::is_pvc;
use crate::structs::order::Order;
use crate::structs::parse_stcker_error::{Failure, ParseStickerError};
use crate::structs::sticker::{records, same_design, Record, Sticker};
use std::collections::HashMap;
use vstd::prelude::*;
use vstd::string::*;

verus! {

broadcast use vstd::std_specs::hash::group_hash_axioms;

/// The records of one code.
#[derive(Debug)]
pub struct CodeGroup {
    pub code: u64,
    pub stickers: Vec<Sticker>,
}

/// The catalogue and the failures that are left for a person to look at.
#[derive(Debug)]
pub struct Catalogue {
    pub groups: Vec<CodeGroup>,
    pub failures: Vec<ParseStickerError>,
}

/// The failures of a sequence of errors.
pub open spec fn failures(v: Seq<ParseStickerError>) -> Seq<Failure> {
    v.map_values(|e: ParseStickerError| e@)
}

/// A record of the same design as `r` is among `d`.
pub open spec fn listed(d: Seq<Record>, r: Record) -> bool {
    exists|i: int| 0 <= i < d.len() && same_design(#[trigger] d[i], r)
}

/// The designs of `s` that carry `code`, each once, in the order in which
/// each first occurs.
pub open spec fn designs_with_code(s: Seq<Record>, code: u64) -> Seq<Record>
    decreases s.len(),
{
    if s.len() == 0 {
        Seq::empty()
    } else {
        let before = designs_with_code(s.drop_last(), code);
        if s.last().code == code && !listed(before, s.last()) {
            before.push(s.last())
        } else {
            before
        }
    }
}

/// Some record of `s` carries `code`.
pub open spec fn has_code(s: Seq<Record>, code: u64) -> bool {
    exists|k: int| 0 <= k < s.len() && (#[trigger] s[k]).code == code
}

/// Some group is that of `code`.
pub open spec fn has_group(groups: Seq<CodeGroup>, code: u64) -> bool {
    exists|i: int| 0 <= i < groups.len() && (#[trigger] groups[i]).code == code
}

/// `groups` is the catalogue of the records `all`: one group for each code
/// that occurs, the codes ascending, and in each group the designs of its
/// code, each once, in the order in which each first occurs in `all`.
pub open spec fn is_catalogue(groups: Seq<CodeGroup>, all: Seq<Record>) -> bool {
    &&& forall|i: int|
        0 <= i < groups.len() ==> has_code(all, (#[trigger] groups[i]).code) && records(
            groups[i].stickers@,
        ) == designs_with_code(all, groups[i].code)
    &&& forall|i: int, j: int|
        0 <= i < j < groups.len() ==> (#[trigger] groups[i]).code < (#[trigger] groups[j]).code
    &&& forall|k: int| 0 <= k < all.len() ==> has_group(groups, (#[trigger] all[k]).code)
}

/// `code` lies above the floor, where there is one.
pub open spec fn above(code: u64, floor: Option<u64>) -> bool {
    match floor {
        Some(f) => code > f,
        None => true,
    }
}

/// The records of the outcomes that are records, in their order.
pub open spec fn outcome_records(o: Seq<Result<Vec<Sticker>, ParseStickerError>>) -> Seq<Record>
    decreases o.len(),
{
    if o.len() == 0 {
        Seq::empty()
    } else {
        outcome_records(o.drop_last()) + (match o.last() {
            Ok(v) => records(v@),
            Err(_) => Seq::empty(),
        })
    }
}

/// The failures among the outcomes, in their order.
pub open spec fn outcome_failures(o: Seq<Result<Vec<Sticker>, ParseStickerError>>) -> Seq<Failure>
    decreases o.len(),
{
    if o.len() == 0 {
        Seq::empty()
    } else {
        outcome_failures(o.drop_last()) + (match o.last() {
            Ok(_) => Seq::empty(),
            Err(e) => seq![e@],
        })
    }
}

/// A recovered record: its description says that the code was inferred.
pub open spec fn marked(r: Record) -> Record {
    Record {
        code: r.code,
        description: r.description + " !!!INFERRED!!!"@,
        dimensions: r.dimensions,
        material: r.material,
        text_color: r.text_color,
        full_name: r.full_name,
    }
}

/// The records that recovery adds for one failure, each marked.
pub open spec fn recovered_for(error: Failure, pool: Seq<Record>, bound: SimilarityBound) -> Seq<
    Record,
> {
    match inferred(error, pool, bound) {
        Ok(found) => found.map_values(|r: Record| marked(r)),
        Err(_) => Seq::empty(),
    }
}

/// The failure that recovery leaves for one failure, if any.
pub open spec fn left_for(error: Failure, pool: Seq<Record>, bound: SimilarityBound) -> Seq<
    Failure,
> {
    match inferred(error, pool, bound) {
        Ok(_) => Seq::empty(),
        Err(e) => seq![e],
    }
}

/// The records that recovery adds for the failures, in their order. Every
/// failure is held against the same pool.
pub open spec fn recovered_records(
    errors: Seq<Failure>,
    pool: Seq<Record>,
    bound: SimilarityBound,
) -> Seq<Record>
    decreases errors.len(),
{
    if errors.len() == 0 {
        Seq::empty()
    } else {
        recovered_records(errors.drop_last(), pool, bound) + recovered_for(
            errors.last(),
            pool,
            bound,
        )
    }
}

/// The failures that recovery leaves, in their order.
pub open spec fn lasting_failures(
    errors: Seq<Failure>,
    pool: Seq<Record>,
    bound: SimilarityBound,
) -> Seq<Failure>
    decreases errors.len(),
{
    if errors.len() == 0 {
        Seq::empty()
    } else {
        lasting_failures(errors.drop_last(), pool, bound) + left_for(errors.last(), pool, bound)
    }
}

/// Every record of a code is listed among the designs of that code.
pub proof fn lemma_designs_cover(s: Seq<Record>, code: u64, k: int)
    requires
        0 <= k < s.len(),
        s[k].code == code,
    ensures
        listed(designs_with_code(s, code), s[k]),
    decreases s.len(),
{
    let before = designs_with_code(s.drop_last(), code);
    let all = designs_with_code(s, code);
    if k < s.len() - 1 {
        lemma_designs_cover(s.drop_last(), code, k);
        let i = choose|i: int| 0 <= i < before.len() && same_design(#[trigger] before[i], s[k]);
        assert(same_design(all[i], s[k]));
    } else if listed(before, s.last()) {
    } else {
        assert(same_design(all[all.len() - 1], s[k]));
    }
}

/// The designs of a code all carry it, and no two of them are the same
/// design.
pub proof fn lemma_designs_distinct(s: Seq<Record>, code: u64)
    ensures
        forall|i: int|
            0 <= i < designs_with_code(s, code).len() ==> (#[trigger] designs_with_code(
                s,
                code,
            )[i]).code == code,
        forall|i: int, j: int|
            0 <= i < j < designs_with_code(s, code).len() ==> !same_design(
                #[trigger] designs_with_code(s, code)[i],
                #[trigger] designs_with_code(s, code)[j],
            ),
    decreases s.len(),
{
    if s.len() > 0 {
        lemma_designs_distinct(s.drop_last(), code);
    }
}

/// Records that are all listed already add nothing.
pub proof fn lemma_listed_add_nothing(s: Seq<Record>, t: Seq<Record>, code: u64)
    requires
        forall|k: int|
            0 <= k < t.len() && (#[trigger] t[k]).code == code ==> listed(
                designs_with_code(s, code),
                t[k],
            ),
    ensures
        designs_with_code(s + t, code) == designs_with_code(s, code),
    decreases t.len(),
{
    if t.len() == 0 {
        assert(s + t =~= s);
    } else {
        lemma_listed_add_nothing(s, t.drop_last(), code);
        assert((s + t).drop_last() =~= s + t.drop_last());
        assert((s + t).last() == t[t.len() - 1]);
    }
}

/// Merging the same records twice gives what merging them once gives: a
/// design is kept once, whatever name it was read from.
pub proof fn lemma_merging_twice(s: Seq<Record>, code: u64)
    ensures
        designs_with_code(s + s, code) == designs_with_code(s, code),
{
    assert forall|k: int| 0 <= k < s.len() && (#[trigger] s[k]).code == code implies listed(
        designs_with_code(s, code),
        s[k],
    ) by {
        lemma_designs_cover(s, code, k);
    }
    lemma_listed_add_nothing(s, s, code);
}

/// Whether a record of the same design as `s` is among `group`.
pub fn is_listed(group: &Vec<Sticker>, s: &Sticker) -> (b: bool)
    ensures
        b == listed(records(group@), s@),
{
    let mut i: usize = 0;
    while i < group.len()
        invariant
            i <= group@.len(),
            forall|k: int| 0 <= k < i ==> !same_design(#[trigger] records(group@)[k], s@),
        decreases group@.len() - i,
    {
        if group[i].same_as(s) {
            assert(same_design(records(group@)[i as int], s@));
            return true;
        }
        i += 1;
    }
    false
}

/// The designs of `all` that carry `code`, each once.
pub fn collect_designs(all: &Vec<Sticker>, code: u64) -> (r: Vec<Sticker>)
    ensures
        records(r@) == designs_with_code(records(all@), code),
{
    let ghost pool = records(all@);
    let mut r: Vec<Sticker> = Vec::new();
    let mut k: usize = 0;
    assert(pool.subrange(0, 0) =~= Seq::<Record>::empty());
    assert(records(r@) =~= Seq::<Record>::empty());
    while k < all.len()
        invariant
            k <= all@.len(),
            pool == records(all@),
            records(r@) == designs_with_code(pool.subrange(0, k as int), code),
        decreases all@.len() - k,
    {
        let ghost before = r@;
        proof {
            assert(pool.subrange(0, k + 1).drop_last() =~= pool.subrange(0, k as int));
            assert(pool.subrange(0, k + 1).last() == all@[k as int]@);
        }
        if all[k].code == code && !is_listed(&r, &all[k]) {
            r.push(all[k].duplicate());
            assert(records(r@) =~= records(before).push(all@[k as int]@));
        }
        k += 1;
    }
    assert(pool.subrange(0, k as int) =~= pool);
    r
}

/// The least code of `all` above the floor.
pub fn least_code_above(all: &Vec<Sticker>, floor: Option<u64>) -> (r: Option<u64>)
    ensures
        match r {
            Some(c) => above(c, floor) && has_code(records(all@), c) && forall|k: int|
                0 <= k < all@.len() && above((#[trigger] all@[k]).code, floor) ==> c
                    <= all@[k].code,
            None => forall|k: int| 0 <= k < all@.len() ==> !above((#[trigger] all@[k]).code, floor),
        },
{
    let mut best: Option<u64> = None;
    let mut k: usize = 0;
    while k < all.len()
        invariant
            k <= all@.len(),
            match best {
                Some(c) => above(c, floor) && has_code(records(all@), c) && forall|j: int|
                    0 <= j < k && above((#[trigger] all@[j]).code, floor) ==> c <= all@[j].code,
                None => forall|j: int| 0 <= j < k ==> !above((#[trigger] all@[j]).code, floor),
            },
        decreases all@.len() - k,
    {
        let code: u64 = all[k].code;
        let over: bool = match floor {
            Some(f) => code > f,
            None => true,
        };
        let better: bool = match best {
            Some(c) => code < c,
            None => true,
        };
        if over && better {
            assert(records(all@)[k as int].code == code);
            best = Some(code);
        }
        k += 1;
    }
    best
}

/// Where the group of `code` stands among `groups`, if it has one.
pub fn find_group(groups: &Vec<CodeGroup>, code: u64) -> (r: Option<usize>)
    ensures
        match r {
            Some(i) => i < groups@.len() && groups@[i as int].code == code && forall|k: int|
                0 <= k < i ==> (#[trigger] groups@[k]).code != code,
            None => !has_group(groups@, code),
        },
{
    let mut i: usize = 0;
    while i < groups.len()
        invariant
            i <= groups@.len(),
            forall|k: int| 0 <= k < i ==> (#[trigger] groups@[k]).code != code,
        decreases groups@.len() - i,
    {
        if groups[i].code == code {
            return Some(i);
        }
        i += 1;
    }
    None
}

/// The record is of the given family and size.
pub open spec fn suits(r: Record, pvc: bool, d: Dimensions) -> bool {
    is_pvc(r.material) == pvc && r.dimensions == d
}

/// How many of the records are of the given family and size.
pub open spec fn suiting(s: Seq<Record>, pvc: bool, d: Dimensions) -> nat
    decreases s.len(),
{
    if s.len() == 0 {
        0
    } else {
        suiting(s.drop_last(), pvc, d) + (if suits(s.last(), pvc, d) {
            1nat
        } else {
            0nat
        })
    }
}

/// The records of the first group of `code` from `from` on; none where the
/// code has no group.
pub open spec fn group_records(groups: Seq<CodeGroup>, code: u64, from: int) -> Seq<Record>
    decreases groups.len() - from,
{
    if from < 0 || from >= groups.len() {
        Seq::empty()
    } else if groups[from].code == code {
        records(groups[from].stickers@)
    } else {
        group_records(groups, code, from + 1)
    }
}

/// How many labels of the given family and size the orders need: each
/// order needs its amount of every such record of its code.
pub open spec fn needed(orders: Seq<Order>, groups: Seq<CodeGroup>, pvc: bool, d: Dimensions) -> int
    decreases orders.len(),
{
    if orders.len() == 0 {
        0
    } else {
        needed(orders.drop_last(), groups, pvc, d) + orders.last().amount * suiting(
            group_records(groups, orders.last().code, 0),
            pvc,
            d,
        )
    }
}

/// A count as 64 bits hold it: itself, or the greatest value where it is
/// greater.
pub open spec fn capped(n: int) -> u64 {
    if n > u64::MAX {
        u64::MAX
    } else {
        n as u64
    }
}

/// The orders need no negative count.
pub proof fn lemma_needed_is_count(orders: Seq<Order>, groups: Seq<CodeGroup>, pvc: bool, d: Dimensions)
    ensures
        needed(orders, groups, pvc, d) >= 0,
    decreases orders.len(),
{
    if orders.len() > 0 {
        lemma_needed_is_count(orders.drop_last(), groups, pvc, d);
        let amount = orders.last().amount;
        let n = suiting(group_records(groups, orders.last().code, 0), pvc, d);
        assert(amount * n >= 0) by (nonlinear_arith)
            requires
                amount >= 0,
                n >= 0,
        ;
    }
}

/// From `from` up to the first group of `code`, the records sought are
/// those of that group.
pub proof fn lemma_group_records(groups: Seq<CodeGroup>, code: u64, from: int, at: int)
    requires
        0 <= from <= at < groups.len(),
        groups[at].code == code,
        forall|k: int| from <= k < at ==> (#[trigger] groups[k]).code != code,
    ensures
        group_records(groups, code, from) == records(groups[at].stickers@),
    decreases at - from,
{
    if from < at {
        lemma_group_records(groups, code, from + 1, at);
    }
}

/// A code without a group has no records.
pub proof fn lemma_no_group_records(groups: Seq<CodeGroup>, code: u64, from: int)
    requires
        0 <= from,
        !has_group(groups, code),
    ensures
        group_records(groups, code, from) == Seq::<Record>::empty(),
    decreases groups.len() - from,
{
    if from < groups.len() {
        assert(groups[from].code != code);
        lemma_no_group_records(groups, code, from + 1);
    }
}

/// How many labels of the given family and size the orders need, counted
/// up to the greatest value of 64 bits.
pub fn needed_amount(orders: &Vec<Order>, groups: &Vec<CodeGroup>, pvc: bool, d: Dimensions) -> (r:
    u64)
    ensures
        r == capped(needed(orders@, groups@, pvc, d)),
{
    let mut total: u64 = 0;
    let mut i: usize = 0;
    assert(orders@.subrange(0, 0) =~= Seq::<Order>::empty());
    while i < orders.len()
        invariant
            i <= orders@.len(),
            total == capped(needed(orders@.subrange(0, i as int), groups@, pvc, d)),
        decreases orders@.len() - i,
    {
        let amount: u64 = orders[i].amount;
        let ghost before = needed(orders@.subrange(0, i as int), groups@, pvc, d);
        let ghost found = group_records(groups@, orders@[i as int].code, 0);
        proof {
            lemma_needed_is_count(orders@.subrange(0, i as int), groups@, pvc, d);
            assert(orders@.subrange(0, i + 1).drop_last() =~= orders@.subrange(0, i as int));
            assert(orders@.subrange(0, i + 1).last() == orders@[i as int]);
        }
        match find_group(groups, orders[i].code) {
            Some(at) => {
                proof {
                    lemma_group_records(groups@, orders@[i as int].code, 0, at as int);
                }
                let stickers = &groups[at].stickers;
                let mut k: usize = 0;
                assert(found.subrange(0, 0) =~= Seq::<Record>::empty());
                assert(amount * 0 == 0) by (nonlinear_arith);
                while k < stickers.len()
                    invariant
                        k <= stickers@.len(),
                        found == records(stickers@),
                        before >= 0,
                        total == capped(
                            before + amount * suiting(found.subrange(0, k as int), pvc, d),
                        ),
                    decreases stickers@.len() - k,
                {
                    let ghost n = suiting(found.subrange(0, k as int), pvc, d);
                    proof {
                        assert(found.subrange(0, k + 1).drop_last() =~= found.subrange(0, k as int));
                        assert(found.subrange(0, k + 1).last() == stickers@[k as int]@);
                        assert(amount * (n + 1) == amount * n + amount) by (nonlinear_arith);
                        assert(amount * n >= 0) by (nonlinear_arith)
                            requires
                                amount >= 0,
                                n >= 0,
                        ;
                    }
                    if stickers[k].material.is_of_pvc() == pvc && stickers[k].dimensions == d {
                        if total > u64::MAX - amount {
                            total = u64::MAX;
                        } else {
                            total = total + amount;
                        }
                    }
                    k += 1;
                }
                assert(found.subrange(0, k as int) =~= found);
            },
            None => {
                proof {
                    lemma_no_group_records(groups@, orders@[i as int].code, 0);
                    assert(amount * 0 == 0) by (nonlinear_arith);
                }
            },
        }
        i += 1;
    }
    assert(orders@.subrange(0, i as int) =~= orders@);
    total
}

/// Copies of the records, in their order.
pub fn copy_stickers(v: &Vec<Sticker>) -> (r: Vec<Sticker>)
    ensures
        records(r@) == records(v@),
{
    let mut r: Vec<Sticker> = Vec::new();
    let mut i: usize = 0;
    while i < v.len()
        invariant
            i <= v@.len(),
            r@.len() == i,
            forall|k: int| 0 <= k < i ==> (#[trigger] r@[k])@ == v@[k]@,
        decreases v@.len() - i,
    {
        r.push(v[i].duplicate());
        i += 1;
    }
    assert(records(r@) =~= records(v@));
    r
}

/// The catalogue as a mapping from each code to its records: the keys are
/// the codes that have a group, and each code leads to the records of its
/// group, in their order.
pub fn code_to_stickers_map(groups: &Vec<CodeGroup>) -> (m: HashMap<u64, Vec<Sticker>>)
    ensures
        forall|code: u64| #[trigger] m@.contains_key(code) <==> has_group(groups@, code),
        forall|code: u64|
            m@.contains_key(code) ==> records((#[trigger] m@[code])@) == group_records(
                groups@,
                code,
                0,
            ),
{
    let mut m: HashMap<u64, Vec<Sticker>> = HashMap::new();
    let mut i: usize = 0;
    while i < groups.len()
        invariant
            i <= groups@.len(),
            forall|code: u64|
                #[trigger] m@.contains_key(code) <==> has_group(groups@.subrange(0, i as int), code),
            forall|code: u64|
                m@.contains_key(code) ==> records((#[trigger] m@[code])@) == group_records(
                    groups@,
                    code,
                    0,
                ),
        decreases groups@.len() - i,
    {
        let code: u64 = groups[i].code;
        let ghost before = m@;
        let ghost seen = groups@.subrange(0, i as int);
        let ghost next = groups@.subrange(0, i + 1);
        let known: bool = m.contains_key(&code);
        if !known {
            let stickers = copy_stickers(&groups[i].stickers);
            proof {
                assert forall|k: int| 0 <= k < i implies (#[trigger] groups@[k]).code != code by {
                    if groups@[k].code == code {
                        assert(seen[k].code == code);
                        assert(has_group(seen, code));
                    }
                }
                lemma_group_records(groups@, code, 0, i as int);
            }
            m.insert(code, stickers);
        }
        proof {
            assert forall|c: u64| #[trigger] m@.contains_key(c) <==> has_group(next, c) by {
                if has_group(next, c) {
                    let k = choose|k: int| 0 <= k < next.len() && (#[trigger] next[k]).code == c;
                    if k < i {
                        assert(seen[k].code == c);
                        assert(has_group(seen, c));
                    }
                }
                if m@.contains_key(c) {
                    if c == code {
                        assert(next[i as int].code == c);
                    } else {
                        assert(before.contains_key(c));
                        let k = choose|k: int| 0 <= k < seen.len() && (#[trigger] seen[k]).code == c;
                        assert(next[k].code == c);
                    }
                }
            }
        }
        i += 1;
    }
    assert(groups@.subrange(0, i as int) =~= groups@);
    m
}

/// The band behind the code of an order in the table of sizes.
#[derive(Debug, Clone, Copy, PartialEq, Eq, Structural)]
pub enum Shade {
    Plain,
    Silver,
    Lime,
}

/// The bands of the orders so far, and what the next band depends on.
pub struct Banding {
    pub shades: Seq<Shade>,
    pub last_multi: bool,
    pub use_grey: bool,
}

/// The bands of the orders. An order with one label, or with none, is
/// plain. An order with several labels is banded in silver or in lime;
/// the band changes where such an order follows another such order, so
/// that neighbours can be told apart. An order without a group takes no
/// part.
pub open spec fn banded(orders: Seq<Order>, groups: Seq<CodeGroup>) -> Banding
    decreases orders.len(),
{
    if orders.len() == 0 {
        Banding { shades: Seq::empty(), last_multi: false, use_grey: true }
    } else {
        let b = banded(orders.drop_last(), groups);
        if !has_group(groups, orders.last().code) {
            Banding { shades: b.shades.push(Shade::Plain), ..b }
        } else if group_records(groups, orders.last().code, 0).len() > 1 {
            let grey = if b.last_multi {
                !b.use_grey
            } else {
                b.use_grey
            };
            Banding {
                shades: b.shades.push(
                    if grey {
                        Shade::Silver
                    } else {
                        Shade::Lime
                    },
                ),
                last_multi: true,
                use_grey: grey,
            }
        } else {
            Banding { shades: b.shades.push(Shade::Plain), last_multi: false, use_grey: b.use_grey }
        }
    }
}

/// The band of each order, in their order.
pub fn shades_of(orders: &Vec<Order>, groups: &Vec<CodeGroup>) -> (r: Vec<Shade>)
    ensures
        r@ == banded(orders@, groups@).shades,
{
    let mut r: Vec<Shade> = Vec::new();
    let mut last_multi = false;
    let mut use_grey = true;
    let mut i: usize = 0;
    assert(orders@.subrange(0, 0) =~= Seq::<Order>::empty());
    while i < orders.len()
        invariant
            i <= orders@.len(),
            banded(orders@.subrange(0, i as int), groups@) == (Banding {
                shades: r@,
                last_multi,
                use_grey,
            }),
        decreases orders@.len() - i,
    {
        proof {
            assert(orders@.subrange(0, i + 1).drop_last() =~= orders@.subrange(0, i as int));
            assert(orders@.subrange(0, i + 1).last() == orders@[i as int]);
        }
        match find_group(groups, orders[i].code) {
            None => {
                r.push(Shade::Plain);
            },
            Some(at) => {
                proof {
                    lemma_group_records(groups@, orders@[i as int].code, 0, at as int);
                }
                if groups[at].stickers.len() > 1 {
                    if last_multi {
                        use_grey = !use_grey;
                    }
                    r.push(
                        if use_grey {
                            Shade::Silver
                        } else {
                            Shade::Lime
                        },
                    );
                    last_multi = true;
                } else {
                    r.push(Shade::Plain);
                    last_multi = false;
                }
            },
        }
        i += 1;
    }
    assert(orders@.subrange(0, i as int) =~= orders@);
    r
}

/// The orders whose code has a group, in their order.
pub open spec fn orders_found(orders: Seq<Order>, groups: Seq<CodeGroup>) -> Seq<Order> {
    orders.filter(|o: Order| has_group(groups, o.code))
}

/// The orders whose code has no group, in their order.
pub open spec fn orders_missing(orders: Seq<Order>, groups: Seq<CodeGroup>) -> Seq<Order> {
    orders.filter(|o: Order| !has_group(groups, o.code))
}

/// The orders that the catalogue can serve and those it cannot, each in
/// their order.
pub fn split_orders(orders: &Vec<Order>, groups: &Vec<CodeGroup>) -> (r: (Vec<Order>, Vec<Order>))
    ensures
        r.0@ == orders_found(orders@, groups@),
        r.1@ == orders_missing(orders@, groups@),
{
    let mut found: Vec<Order> = Vec::new();
    let mut missing: Vec<Order> = Vec::new();
    let mut i: usize = 0;
    assert(orders@.subrange(0, 0) =~= Seq::<Order>::empty());
    assert(orders_found(Seq::<Order>::empty(), groups@) =~= Seq::<Order>::empty());
    assert(orders_missing(Seq::<Order>::empty(), groups@) =~= Seq::<Order>::empty());
    while i < orders.len()
        invariant
            i <= orders@.len(),
            found@ == orders_found(orders@.subrange(0, i as int), groups@),
            missing@ == orders_missing(orders@.subrange(0, i as int), groups@),
        decreases orders@.len() - i,
    {
        let ghost served = found@;
        let ghost unserved = missing@;
        proof {
            assert(orders@.subrange(0, i + 1) =~= orders@.subrange(0, i as int).push(
                orders@[i as int],
            ));
            lemma_filter_push(orders@.subrange(0, i as int), orders@[i as int], groups@);
        }
        if find_group(groups, orders[i].code).is_some() {
            found.push(orders[i].duplicate());
            assert(found@ =~= served + seq![orders@[i as int]]);
            assert(missing@ =~= unserved + Seq::<Order>::empty());
        } else {
            missing.push(orders[i].duplicate());
            assert(missing@ =~= unserved + seq![orders@[i as int]]);
            assert(found@ =~= served + Seq::<Order>::empty());
        }
        i += 1;
    }
    assert(orders@.subrange(0, i as int) =~= orders@);
    (found, missing)
}

/// An order behind others goes to the served or to the unserved ones.
pub proof fn lemma_filter_push(s: Seq<Order>, o: Order, groups: Seq<CodeGroup>)
    ensures
        orders_found(s.push(o), groups) == orders_found(s, groups) + (if has_group(
            groups,
            o.code,
        ) {
            seq![o]
        } else {
            Seq::empty()
        }),
        orders_missing(s.push(o), groups) == orders_missing(s, groups) + (if has_group(
            groups,
            o.code,
        ) {
            Seq::empty()
        } else {
            seq![o]
        }),
{
    reveal(Seq::filter);
    assert(s.push(o).drop_last() =~= s);
    if has_group(groups, o.code) {
        assert(orders_found(s.push(o), groups) =~= orders_found(s, groups) + seq![o]);
        assert(orders_missing(s.push(o), groups) =~= orders_missing(s, groups) + Seq::empty());
    } else {
        assert(orders_found(s.push(o), groups) =~= orders_found(s, groups) + Seq::empty());
        assert(orders_missing(s.push(o), groups) =~= orders_missing(s, groups) + seq![o]);
    }
}

/// The catalogue of the records: they are put in the order of their codes,
/// a design that occurs again is dropped, and what is left is grouped by
/// code.
pub fn group_by_code(all: &Vec<Sticker>) -> (r: Vec<CodeGroup>)
    ensures
        is_catalogue(r@, records(all@)),
{
    let ghost pool = records(all@);
    let mut groups: Vec<CodeGroup> = Vec::new();
    let mut floor: Option<u64> = None;
    loop
        invariant
            pool == records(all@),
            forall|i: int|
                0 <= i < groups@.len() ==> has_code(pool, (#[trigger] groups@[i]).code) && records(
                    groups@[i].stickers@,
                ) == designs_with_code(pool, groups@[i].code),
            forall|i: int, j: int|
                0 <= i < j < groups@.len() ==> (#[trigger] groups@[i]).code < (
                #[trigger] groups@[j]).code,
            forall|i: int| 0 <= i < groups@.len() ==> !above((#[trigger] groups@[i]).code, floor),
            groups@.len() > 0 ==> floor is Some,
            forall|k: int|
                0 <= k < all@.len() && !above((#[trigger] all@[k]).code, floor) ==> has_group(
                    groups@,
                    all@[k].code,
                ),
        decreases
                (match floor {
                    Some(f) => u64::MAX - f,
                    None => u64::MAX + 1,
                }),
    {
        match least_code_above(all, floor) {
            None => {
                proof {
                    assert forall|k: int| 0 <= k < pool.len() implies has_group(
                        groups@,
                        (#[trigger] pool[k]).code,
                    ) by {
                        assert(pool[k].code == all@[k].code);
                    }
                }
                return groups;
            },
            Some(code) => {
                let ghost old_groups = groups@;
                let ghost old_floor = floor;
                let stickers = collect_designs(all, code);
                groups.push(CodeGroup { code, stickers });
                floor = Some(code);
                proof {
                    assert forall|k: int|
                        0 <= k < all@.len() && !above((#[trigger] all@[k]).code, floor) implies has_group(
                        groups@,
                        all@[k].code,
                    ) by {
                        if above(all@[k].code, old_floor) {
                            assert(groups@[old_groups.len() as int].code == all@[k].code);
                        } else {
                            let i = choose|i: int|
                                0 <= i < old_groups.len() && (#[trigger] old_groups[i]).code
                                    == all@[k].code;
                            assert(groups@[i].code == all@[k].code);
                        }
                    }
                }
            },
        }
    }
}

/// The records and the failures among the outcomes, each in their order.
pub fn split_outcomes(outcomes: &Vec<Result<Vec<Sticker>, ParseStickerError>>) -> (r: (
    Vec<Sticker>,
    Vec<ParseStickerError>,
))
    ensures
        records(r.0@) == outcome_records(outcomes@),
        failures(r.1@) == outcome_failures(outcomes@),
{
    let mut stickers: Vec<Sticker> = Vec::new();
    let mut errors: Vec<ParseStickerError> = Vec::new();
    let mut i: usize = 0;
    assert(outcomes@.subrange(0, 0) =~= Seq::empty());
    assert(records(stickers@) =~= Seq::<Record>::empty());
    assert(failures(errors@) =~= Seq::<Failure>::empty());
    while i < outcomes.len()
        invariant
            i <= outcomes@.len(),
            records(stickers@) == outcome_records(outcomes@.subrange(0, i as int)),
            failures(errors@) == outcome_failures(outcomes@.subrange(0, i as int)),
        decreases outcomes@.len() - i,
    {
        proof {
            assert(outcomes@.subrange(0, i + 1).drop_last() =~= outcomes@.subrange(0, i as int));
            assert(outcomes@.subrange(0, i + 1).last() == outcomes@[i as int]);
        }
        let ghost had = stickers@;
        let ghost failed = errors@;
        match &outcomes[i] {
            Ok(v) => {
                let mut k: usize = 0;
                while k < v.len()
                    invariant
                        k <= v@.len(),
                        records(stickers@) == records(had) + records(v@).subrange(0, k as int),
                    decreases v@.len() - k,
                {
                    let ghost so_far = stickers@;
                    stickers.push(v[k].duplicate());
                    k += 1;
                    assert(records(stickers@) =~= records(had) + records(v@).subrange(
                        0,
                        k as int,
                    )) by {
                        assert(records(stickers@) =~= records(so_far).push(v@[k - 1]@));
                    }
                }
                assert(records(v@).subrange(0, k as int) =~= records(v@));
                assert(failures(errors@) =~= failures(failed) + Seq::<Failure>::empty());
            },
            Err(e) => {
                errors.push(e.duplicate());
                assert(failures(errors@) =~= failures(failed) + seq![e@]);
                assert(records(stickers@) =~= records(had) + Seq::<Record>::empty());
            },
        }
        i += 1;
    }
    assert(outcomes@.subrange(0, i as int) =~= outcomes@);
    (stickers, errors)
}

/// The record with the mark of an inferred code behind its description.
pub fn mark_inferred(s: &Sticker) -> (r: Sticker)
    ensures
        r@ == marked(s@),
{
    Sticker {
        code: s.code,
        description: s.description.clone().concat(" !!!INFERRED!!!"),
        dimensions: s.dimensions,
        material: s.material,
        text_color: s.text_color,
        full_name: s.full_name.clone(),
    }
}

/// Recovery over all failures: the records that it adds, each marked, and
/// the failures that it leaves. Only a missing code is recovered, and
/// every failure is held against the same pool of directly read records.
pub fn recover_all(errors: &Vec<ParseStickerError>, pool: &Vec<Sticker>, bound: SimilarityBound) -> (r:
    (Vec<Sticker>, Vec<ParseStickerError>))
    ensures
        records(r.0@) == recovered_records(failures(errors@), records(pool@), bound),
        failures(r.1@) == lasting_failures(failures(errors@), records(pool@), bound),
{
    let ghost given = failures(errors@);
    let mut added: Vec<Sticker> = Vec::new();
    let mut left: Vec<ParseStickerError> = Vec::new();
    let mut i: usize = 0;
    assert(given.subrange(0, 0) =~= Seq::<Failure>::empty());
    assert(records(added@) =~= Seq::<Record>::empty());
    assert(failures(left@) =~= Seq::<Failure>::empty());
    while i < errors.len()
        invariant
            i <= errors@.len(),
            given == failures(errors@),
            records(added@) == recovered_records(
                given.subrange(0, i as int),
                records(pool@),
                bound,
            ),
            failures(left@) == lasting_failures(given.subrange(0, i as int), records(pool@), bound),
        decreases errors@.len() - i,
    {
        proof {
            assert(given.subrange(0, i + 1).drop_last() =~= given.subrange(0, i as int));
            assert(given.subrange(0, i + 1).last() == errors@[i as int]@);
        }
        let ghost had = added@;
        let ghost failed = left@;
        match try_infering_code_by_description_similiarity_measure(
            &errors[i],
            pool.as_slice(),
            bound,
        ) {
            Ok(found) => {
                let ghost plain = records(found@);
                let mut k: usize = 0;
                while k < found.len()
                    invariant
                        k <= found@.len(),
                        plain == records(found@),
                        records(added@) == records(had) + plain.map_values(
                            |r: Record| marked(r),
                        ).subrange(0, k as int),
                    decreases found@.len() - k,
                {
                    let ghost so_far = added@;
                    added.push(mark_inferred(&found[k]));
                    k += 1;
                    assert(records(added@) =~= records(so_far).push(marked(plain[k - 1])));
                    assert(records(added@) =~= records(had) + plain.map_values(
                        |r: Record| marked(r),
                    ).subrange(0, k as int));
                }
                assert(plain.map_values(|r: Record| marked(r)).subrange(0, k as int)
                    =~= plain.map_values(|r: Record| marked(r)));
                assert(failures(left@) =~= failures(failed) + Seq::<Failure>::empty());
            },
            Err(e) => {
                left.push(e);
                assert(failures(left@) =~= failures(failed) + seq![e@]);
                assert(records(added@) =~= records(had) + Seq::<Record>::empty());
            },
        }
        i += 1;
    }
    assert(given.subrange(0, i as int) =~= given);
    (added, left)
}

/// The catalogue of the directly read records, with every failure left as
/// it is.
pub fn catalogue_of(outcomes: &Vec<Result<Vec<Sticker>, ParseStickerError>>) -> (c: Catalogue)
    ensures
        is_catalogue(c.groups@, outcome_records(outcomes@)),
        failures(c.failures@) == outcome_failures(outcomes@),
{
    let (stickers, errors) = split_outcomes(outcomes);
    Catalogue { groups: group_by_code(&stickers), failures: errors }
}

/// The catalogue of the directly read records and of those that recovery
/// adds, with the failures that recovery leaves. Recovery starts when all
/// outcomes are in, and holds every failure against the directly read
/// records alone.
pub fn catalogue_with_recovery(
    outcomes: &Vec<Result<Vec<Sticker>, ParseStickerError>>,
    bound: SimilarityBound,
) -> (c: Catalogue)
    ensures
        is_catalogue(
            c.groups@,
            outcome_records(outcomes@) + recovered_records(
                outcome_failures(outcomes@),
                outcome_records(outcomes@),
                bound,
            ),
        ),
        failures(c.failures@) == lasting_failures(
            outcome_failures(outcomes@),
            outcome_records(outcomes@),
            bound,
        ),
{
    let (mut stickers, errors) = split_outcomes(outcomes);
    let (mut added, left) = recover_all(&errors, &stickers, bound);
    let ghost direct = stickers@;
    let ghost extra = added@;
    stickers.append(&mut added);
    assert(records(stickers@) =~= records(direct) + records(extra));
    Catalogue { groups: group_by_code(&stickers), failures: left }
}

} // verus!
