//! The greedy compression engine.
//!
//! Given a batch of instructions and an ordered list of authorities, the
//! engine collects the distinct referenced accounts, then scans the cached
//! snapshots' tables in authority-then-table order. A table is accepted
//! only when it covers more than one of the still-uncovered accounts — a
//! single-address match does not offset the fixed cost of referencing a
//! table — and accepted tables claim their covered addresses for good.
//! There is no backtracking or reconsideration: this is deliberately a
//! greedy heuristic, not an optimal set cover, and callers depend on its
//! exact output.

use vstd::prelude::*;
use vstd::set_lib::lemma_len_subset;
use crate::addr::{addr_seq_contains, vec_contains_addr, Address};
use crate::common::{RegistrySnapshotModel, TableSnapshotModel};

verus! {

/// Model of one instruction.
pub struct InstructionModel {
    pub program_id: Seq<u8>,
    pub accounts: Seq<Seq<u8>>,
}

/// One instruction: the program it targets and the accounts it references.
#[derive(Debug, PartialEq, Eq)]
pub struct Instruction {
    pub program_id: Address,
    pub accounts: Vec<Address>,
}

impl View for Instruction {
    type V = InstructionModel;

    open spec fn view(&self) -> InstructionModel {
        InstructionModel { program_id: self.program_id@, accounts: self.accounts.deep_view() }
    }
}

impl DeepView for Instruction {
    type V = InstructionModel;

    open spec fn deep_view(&self) -> InstructionModel {
        self@
    }
}

/// What address compression found: the accepted table addresses in scan
/// order, the count of distinct referenced accounts, and the count left
/// uncovered.
#[derive(Debug, PartialEq, Eq)]
pub struct FindAddressesResult {
    pub matches: Vec<Address>,
    pub distinct: usize,
    pub unmatched: usize,
}

/// Every account one instruction references; the target program counts.
pub open spec fn instruction_accounts(ix: InstructionModel) -> Seq<Seq<u8>> {
    seq![ix.program_id] + ix.accounts
}

/// All accounts referenced across the batch, in order.
pub open spec fn all_accounts(ixs: Seq<InstructionModel>) -> Seq<Seq<u8>>
    decreases ixs.len(),
{
    if ixs.len() == 0 {
        Seq::empty()
    } else {
        all_accounts(ixs.drop_last()) + instruction_accounts(ixs.last())
    }
}

/// First-occurrence deduplication: the distinct values of `s`, each at the
/// position of its first appearance.
pub open spec fn spec_dedup(s: Seq<Seq<u8>>) -> Seq<Seq<u8>>
    decreases s.len(),
{
    if s.len() == 0 {
        Seq::empty()
    } else {
        let d = spec_dedup(s.drop_last());
        if d.contains(s.last()) {
            d
        } else {
            d.push(s.last())
        }
    }
}

/// Deduplication keeps exactly the values of `s`, once each.
pub proof fn lemma_spec_dedup(s: Seq<Seq<u8>>)
    ensures
        spec_dedup(s).no_duplicates(),
        forall|x: Seq<u8>| #[trigger] spec_dedup(s).contains(x) <==> s.contains(x),
    decreases s.len(),
{
    if s.len() > 0 {
        lemma_spec_dedup(s.drop_last());
        let d = spec_dedup(s.drop_last());
        lemma_push_contains_all(d, s.last());
        assert forall|x: Seq<u8>| s.contains(x) implies #[trigger] spec_dedup(s).contains(x) by {
            let i = choose|i: int| 0 <= i < s.len() && (#[trigger] s[i]) == x;
            if i < s.len() - 1 {
                assert(s.drop_last()[i] == x);
                assert(s.drop_last().contains(x));
                assert(d.contains(x));
            } else {
                assert(x == s.last());
                if d.contains(s.last()) {
                } else {
                    assert(d.push(s.last()).contains(x));
                }
            }
        }
        assert forall|x: Seq<u8>| #[trigger] spec_dedup(s).contains(x) implies s.contains(x) by {
            if d.contains(x) {
                assert(s.drop_last().contains(x));
                let j = choose|j: int| 0 <= j < s.drop_last().len() && (#[trigger] s.drop_last()[j]) == x;
                assert(s[j] == x);
                assert(s.contains(x));
            } else {
                assert(x == s.last());
                assert(s[s.len() - 1] == x);
                assert(s.contains(x));
            }
        }
        if !d.contains(s.last()) {
            lemma_push_no_dup(d, s.last());
        }
    }
}

/// Membership in a pushed sequence, spelled out for both directions.
pub proof fn lemma_push_contains_all(s: Seq<Seq<u8>>, e: Seq<u8>)
    ensures
        forall|x: Seq<u8>| #[trigger] s.push(e).contains(x) ==> s.contains(x) || x == e,
        forall|x: Seq<u8>| #[trigger] s.contains(x) ==> s.push(e).contains(x),
        s.push(e).contains(e),
{
    assert forall|x: Seq<u8>| #[trigger] s.push(e).contains(x) implies s.contains(x) || x == e by {
        let i = choose|i: int| 0 <= i < s.push(e).len() && (#[trigger] s.push(e)[i]) == x;
        if i < s.len() {
            assert(s[i] == x);
        }
    }
    assert forall|x: Seq<u8>| #[trigger] s.contains(x) implies s.push(e).contains(x) by {
        let i = choose|i: int| 0 <= i < s.len() && (#[trigger] s[i]) == x;
        assert(s.push(e)[i] == x);
    }
    assert(s.push(e)[s.len() as int] == e);
}

/// Membership in a one-longer prefix, spelled out for both directions.
pub proof fn lemma_take_succ_contains_all(s: Seq<Seq<u8>>, i: int)
    requires
        0 <= i < s.len(),
    ensures
        forall|x: Seq<u8>| #[trigger] s.take(i + 1).contains(x) ==> s.take(i).contains(x) || x
            == s[i],
        forall|x: Seq<u8>| #[trigger] s.take(i).contains(x) ==> s.take(i + 1).contains(x),
        s.take(i + 1).contains(s[i]),
{
    assert forall|x: Seq<u8>| #[trigger] s.take(i + 1).contains(x) implies s.take(i).contains(x)
        || x == s[i] by {
        let j = choose|j: int| 0 <= j < i + 1 && (#[trigger] s.take(i + 1)[j]) == x;
        if j < i {
            assert(s.take(i)[j] == x);
        }
    }
    assert forall|x: Seq<u8>| #[trigger] s.take(i).contains(x) implies s.take(i + 1).contains(
        x,
    ) by {
        let j = choose|j: int| 0 <= j < i && (#[trigger] s.take(i)[j]) == x;
        assert(s.take(i + 1)[j] == x);
    }
    assert(s.take(i + 1)[i] == s[i]);
}

/// Pushing a fresh value keeps a sequence duplicate-free.
pub proof fn lemma_push_no_dup(s: Seq<Seq<u8>>, e: Seq<u8>)
    requires
        s.no_duplicates(),
        !s.contains(e),
    ensures
        s.push(e).no_duplicates(),
{
    assert forall|p: int, q: int|
        0 <= p < s.push(e).len() && 0 <= q < s.push(e).len() && p != q implies s.push(e)[p]
        != s.push(e)[q] by {
        if p < s.len() && q < s.len() {
        } else if p < s.len() {
            assert(s[p] == s.push(e)[p]);
            assert(s.contains(s[p]));
        } else if q < s.len() {
            assert(s[q] == s.push(e)[q]);
            assert(s.contains(s[q]));
        }
    }
}

/// A sequence membership predicate and its named form agree.
pub proof fn lemma_addr_contains(s: Seq<Seq<u8>>, a: Seq<u8>)
    ensures
        addr_seq_contains(s, a) == s.contains(a),
{
    if addr_seq_contains(s, a) {
        let i = choose|i: int| 0 <= i < s.len() && (#[trigger] s[i]) == a;
        assert(s[i] == a);
        assert(s.contains(a));
    }
    if s.contains(a) {
        let i = choose|i: int| 0 <= i < s.len() && (#[trigger] s[i]) == a;
        assert(addr_seq_contains(s, a));
    }
}

/// Deduplication is the identity on a duplicate-free sequence.
pub proof fn lemma_dedup_identity(s: Seq<Seq<u8>>)
    requires
        s.no_duplicates(),
    ensures
        spec_dedup(s) == s,
    decreases s.len(),
{
    if s.len() > 0 {
        assert(forall|i: int| 0 <= i < s.drop_last().len() ==> s.drop_last()[i] == s[i]);
        lemma_dedup_identity(s.drop_last());
        assert(!s.drop_last().contains(s.last())) by {
            if s.drop_last().contains(s.last()) {
                let j = choose|j: int|
                    0 <= j < s.drop_last().len() && (#[trigger] s.drop_last()[j]) == s.last();
                assert(s[j] == s[s.len() - 1]);
            }
        }
        assert(s.drop_last().push(s.last()) =~= s);
    }
}

/// State of the greedy scan: the tables accepted so far and the distinct
/// accounts not yet covered.
pub struct EngineState {
    pub matches: Seq<Seq<u8>>,
    pub remaining: Set<Seq<u8>>,
}

/// The set of member addresses of `t` that are still uncovered.
pub open spec fn table_intersection(t: TableSnapshotModel, remaining: Set<Seq<u8>>) -> Set<
    Seq<u8>,
> {
    t.addresses.to_set().intersect(remaining)
}

/// One greedy step: accept the table only if it covers more than one
/// uncovered address; acceptance claims all the addresses it covers.
pub open spec fn step_table(st: EngineState, t: TableSnapshotModel) -> EngineState {
    let inter = table_intersection(t, st.remaining);
    if inter.len() > 1 {
        EngineState {
            matches: st.matches.push(t.lookup_address),
            remaining: st.remaining.difference(inter),
        }
    } else {
        st
    }
}

/// The greedy scan over a sequence of tables, in order.
pub open spec fn run_tables(st: EngineState, ts: Seq<TableSnapshotModel>) -> EngineState
    decreases ts.len(),
{
    if ts.len() == 0 {
        st
    } else {
        step_table(run_tables(st, ts.drop_last()), ts.last())
    }
}

/// Whether the cache map holds a fresh snapshot for `authority` at `now`.
pub open spec fn fresh_at(
    cmap: Map<Seq<u8>, (RegistrySnapshotModel, u64)>,
    authority: Seq<u8>,
    now: u64,
) -> bool {
    cmap.contains_key(authority) && now < cmap[authority].1
}

/// The tables consulted: those of each authority's fresh cached snapshot,
/// in authority order then stored order; an absent or expired snapshot is
/// skipped silently.
pub open spec fn consulted_tables(
    auths: Seq<Seq<u8>>,
    cmap: Map<Seq<u8>, (RegistrySnapshotModel, u64)>,
    now: u64,
) -> Seq<TableSnapshotModel>
    decreases auths.len(),
{
    if auths.len() == 0 {
        Seq::empty()
    } else {
        consulted_tables(auths.drop_last(), cmap, now) + (if fresh_at(cmap, auths.last(), now) {
            cmap[auths.last()].0.tables
        } else {
            Seq::empty()
        })
    }
}

/// The complete engine: matches in scan order, the distinct-account count,
/// and the uncovered-account count. A pure function of its inputs.
pub open spec fn spec_find_addresses(
    ixs: Seq<InstructionModel>,
    auths: Seq<Seq<u8>>,
    cmap: Map<Seq<u8>, (RegistrySnapshotModel, u64)>,
    now: u64,
) -> (Seq<Seq<u8>>, nat, nat) {
    let d = spec_dedup(all_accounts(ixs));
    let stf = run_tables(
        EngineState { matches: Seq::empty(), remaining: d.to_set() },
        consulted_tables(auths, cmap, now),
    );
    (stf.matches, d.len(), stf.remaining.len())
}

/// Scanning a concatenation scans the parts in order.
pub proof fn lemma_run_tables_concat(
    st: EngineState,
    a: Seq<TableSnapshotModel>,
    b: Seq<TableSnapshotModel>,
)
    ensures
        run_tables(st, a + b) == run_tables(run_tables(st, a), b),
    decreases b.len(),
{
    if b.len() == 0 {
        assert(a + b =~= a);
    } else {
        assert((a + b).drop_last() =~= a + b.drop_last());
        assert((a + b).last() == b.last());
        lemma_run_tables_concat(st, a, b.drop_last());
    }
}

/// Every account referenced across the batch, as an executable list.
pub fn collect_accounts(instructions: &Vec<Instruction>) -> (r: Vec<Address>)
    ensures
        r.deep_view() == all_accounts(instructions.deep_view()),
{
    let mut r: Vec<Address> = Vec::new();
    proof {
        assert(instructions.deep_view().take(0) =~= Seq::<InstructionModel>::empty());
        assert(r.deep_view() =~= all_accounts(instructions.deep_view().take(0)));
    }
    let mut i: usize = 0;
    while i < instructions.len()
        invariant
            i <= instructions@.len(),
            instructions.deep_view().len() == instructions@.len(),
            r.deep_view() == all_accounts(instructions.deep_view().take(i as int)),
        decreases instructions@.len() - i,
    {
        let ghost dv = instructions.deep_view();
        let ghost before = r.deep_view();
        r.push(instructions[i].program_id.clone());
        proof {
            assert(r.deep_view() =~= before + seq![dv[i as int].program_id] + dv[
                i as int
            ].accounts.take(0));
        }
        let mut j: usize = 0;
        while j < instructions[i].accounts.len()
            invariant
                i < instructions@.len(),
                j <= instructions[i as int].accounts@.len(),
                dv == instructions.deep_view(),
                dv.len() == instructions@.len(),
                dv[i as int].accounts.len() == instructions[i as int].accounts@.len(),
                before == all_accounts(dv.take(i as int)),
                r.deep_view() == before + seq![dv[i as int].program_id] + dv[
                    i as int
                ].accounts.take(j as int),
            decreases instructions[i as int].accounts@.len() - j,
        {
            let ghost mid = r.deep_view();
            r.push(instructions[i].accounts[j].clone());
            proof {
                assert(dv[i as int].accounts.take(j as int + 1) =~= dv[i as int].accounts.take(
                    j as int,
                ).push(dv[i as int].accounts[j as int]));
                assert(r.deep_view() =~= mid.push(dv[i as int].accounts[j as int]));
                assert(r.deep_view() =~= before + seq![dv[i as int].program_id] + dv[
                    i as int
                ].accounts.take(j as int + 1));
            }
            j += 1;
        }
        proof {
            assert(dv[i as int].accounts.take(dv[i as int].accounts.len() as int) =~= dv[
                i as int
            ].accounts);
            assert(dv.take(i as int + 1).drop_last() =~= dv.take(i as int));
            assert(dv.take(i as int + 1).last() == dv[i as int]);
            assert(r.deep_view() =~= all_accounts(dv.take(i as int + 1)));
        }
        i += 1;
    }
    proof {
        assert(instructions.deep_view().take(instructions.deep_view().len() as int)
            =~= instructions.deep_view());
    }
    r
}

/// First-occurrence deduplication, as an executable list.
pub fn dedup_addresses(v: &Vec<Address>) -> (r: Vec<Address>)
    ensures
        r.deep_view() == spec_dedup(v.deep_view()),
{
    let mut r: Vec<Address> = Vec::new();
    proof {
        assert(v.deep_view().take(0) =~= Seq::<Seq<u8>>::empty());
        assert(r.deep_view() =~= spec_dedup(v.deep_view().take(0)));
    }
    let mut i: usize = 0;
    while i < v.len()
        invariant
            i <= v@.len(),
            v.deep_view().len() == v@.len(),
            r.deep_view() == spec_dedup(v.deep_view().take(i as int)),
        decreases v@.len() - i,
    {
        let ghost dv = v.deep_view();
        let ghost before = r.deep_view();
        proof {
            assert(dv.take(i as int + 1).drop_last() =~= dv.take(i as int));
            assert(dv.take(i as int + 1).last() == dv[i as int]);
        }
        let seen = vec_contains_addr(&r, &v[i]);
        proof {
            lemma_addr_contains(before, dv[i as int]);
        }
        if !seen {
            r.push(v[i].clone());
            proof {
                assert(r.deep_view() =~= before.push(dv[i as int]));
            }
        }
        i += 1;
    }
    proof {
        assert(v.deep_view().take(v.deep_view().len() as int) =~= v.deep_view());
    }
    r
}

/// The distinct addresses of `table_addresses` that occur in `remaining`,
/// iterating whichever of the two lists is smaller and probing membership
/// in the larger.
pub fn intersect_addresses(table_addresses: &Vec<Address>, remaining: &Vec<Address>) -> (r: Vec<
    Address,
>)
    requires
        remaining.deep_view().no_duplicates(),
    ensures
        r.deep_view().no_duplicates(),
        r.deep_view().to_set() == table_addresses.deep_view().to_set().intersect(
            remaining.deep_view().to_set(),
        ),
{
    let ghost tdv = table_addresses.deep_view();
    let ghost rdv = remaining.deep_view();
    let mut r: Vec<Address> = Vec::new();
    if table_addresses.len() < remaining.len() {
        let mut i: usize = 0;
        while i < table_addresses.len()
            invariant
                i <= table_addresses@.len(),
                tdv == table_addresses.deep_view(),
                rdv == remaining.deep_view(),
                tdv.len() == table_addresses@.len(),
                rdv.no_duplicates(),
                r.deep_view().no_duplicates(),
                forall|x: Seq<u8>| #[trigger] r.deep_view().contains(x) ==> tdv.take(
                    i as int,
                ).contains(x) && rdv.contains(x),
                forall|x: Seq<u8>| #[trigger] tdv.take(i as int).contains(x) && rdv.contains(x)
                    ==> r.deep_view().contains(x),
            decreases table_addresses@.len() - i,
        {
            let ghost before = r.deep_view();
            proof {
                lemma_take_succ_contains_all(tdv, i as int);
            }
            let in_remaining = vec_contains_addr(remaining, &table_addresses[i]);
            proof {
                lemma_addr_contains(rdv, tdv[i as int]);
            }
            if in_remaining {
                let already = vec_contains_addr(&r, &table_addresses[i]);
                proof {
                    lemma_addr_contains(before, tdv[i as int]);
                }
                if !already {
                    proof {
                        lemma_push_contains_all(before, tdv[i as int]);
                        lemma_push_no_dup(before, tdv[i as int]);
                    }
                    r.push(table_addresses[i].clone());
                    proof {
                        assert(r.deep_view() =~= before.push(tdv[i as int]));
                    }
                }
            }
            i += 1;
        }
        proof {
            assert(tdv.take(tdv.len() as int) =~= tdv);
            assert(r.deep_view().to_set() =~= tdv.to_set().intersect(rdv.to_set()));
        }
    } else {
        let mut i: usize = 0;
        while i < remaining.len()
            invariant
                i <= remaining@.len(),
                tdv == table_addresses.deep_view(),
                rdv == remaining.deep_view(),
                rdv.len() == remaining@.len(),
                rdv.no_duplicates(),
                r.deep_view().no_duplicates(),
                forall|x: Seq<u8>| #[trigger] r.deep_view().contains(x) ==> tdv.contains(x)
                    && rdv.take(i as int).contains(x),
                forall|x: Seq<u8>| #[trigger] rdv.take(i as int).contains(x) && tdv.contains(x)
                    ==> r.deep_view().contains(x),
            decreases remaining@.len() - i,
        {
            let ghost before = r.deep_view();
            proof {
                lemma_take_succ_contains_all(rdv, i as int);
            }
            let in_table = vec_contains_addr(table_addresses, &remaining[i]);
            proof {
                lemma_addr_contains(tdv, rdv[i as int]);
            }
            if in_table {
                proof {
                    assert(!before.contains(rdv[i as int])) by {
                        if before.contains(rdv[i as int]) {
                            assert(rdv.take(i as int).contains(rdv[i as int]));
                            let j = choose|j: int| 0 <= j < i && (#[trigger] rdv.take(i as int)[j]) == rdv[i as int];
                            assert(rdv[j] == rdv[i as int]);
                        }
                    }
                    lemma_push_contains_all(before, rdv[i as int]);
                    lemma_push_no_dup(before, rdv[i as int]);
                }
                r.push(remaining[i].clone());
                proof {
                    assert(r.deep_view() =~= before.push(rdv[i as int]));
                }
            }
            i += 1;
        }
        proof {
            assert(rdv.take(rdv.len() as int) =~= rdv);
            assert(r.deep_view().to_set() =~= tdv.to_set().intersect(rdv.to_set()));
        }
    }
    r
}

/// The uncovered addresses with every covered one removed, order kept.
pub fn remove_covered(remaining: &Vec<Address>, covered: &Vec<Address>) -> (r: Vec<Address>)
    requires
        remaining.deep_view().no_duplicates(),
    ensures
        r.deep_view().no_duplicates(),
        r.deep_view().to_set() == remaining.deep_view().to_set().difference(
            covered.deep_view().to_set(),
        ),
{
    let ghost rdv = remaining.deep_view();
    let ghost cdv = covered.deep_view();
    let mut r: Vec<Address> = Vec::new();
    let mut i: usize = 0;
    while i < remaining.len()
        invariant
            i <= remaining@.len(),
            rdv == remaining.deep_view(),
            cdv == covered.deep_view(),
            rdv.len() == remaining@.len(),
            rdv.no_duplicates(),
            r.deep_view().no_duplicates(),
            forall|x: Seq<u8>| #[trigger] r.deep_view().contains(x) ==> rdv.take(
                i as int,
            ).contains(x) && !cdv.contains(x),
            forall|x: Seq<u8>| #[trigger] rdv.take(i as int).contains(x) && !cdv.contains(x)
                ==> r.deep_view().contains(x),
        decreases remaining@.len() - i,
    {
        let ghost before = r.deep_view();
        proof {
            lemma_take_succ_contains_all(rdv, i as int);
        }
        let is_covered = vec_contains_addr(covered, &remaining[i]);
        proof {
            lemma_addr_contains(cdv, rdv[i as int]);
        }
        if !is_covered {
            proof {
                assert(!before.contains(rdv[i as int])) by {
                    if before.contains(rdv[i as int]) {
                        assert(rdv.take(i as int).contains(rdv[i as int]));
                        let j = choose|j: int| 0 <= j < i && (#[trigger] rdv.take(i as int)[j]) == rdv[i as int];
                        assert(rdv[j] == rdv[i as int]);
                    }
                }
                lemma_push_contains_all(before, rdv[i as int]);
                lemma_push_no_dup(before, rdv[i as int]);
            }
            r.push(remaining[i].clone());
            proof {
                assert(r.deep_view() =~= before.push(rdv[i as int]));
            }
        }
        i += 1;
    }
    proof {
        assert(rdv.take(rdv.len() as int) =~= rdv);
        assert(r.deep_view().to_set() =~= rdv.to_set().difference(cdv.to_set()));
    }
    r
}

/// Number of times `x` occurs in `s`.
pub open spec fn occ(s: Seq<Seq<u8>>, x: Seq<u8>) -> nat
    decreases s.len(),
{
    if s.len() == 0 {
        0
    } else {
        occ(s.drop_last(), x) + (if s.last() == x {
            1nat
        } else {
            0nat
        })
    }
}

/// A value occurs zero times exactly when the sequence lacks it.
pub proof fn lemma_occ_zero(s: Seq<Seq<u8>>, x: Seq<u8>)
    ensures
        (occ(s, x) == 0) <==> !s.contains(x),
    decreases s.len(),
{
    if s.len() > 0 {
        lemma_occ_zero(s.drop_last(), x);
        if s.contains(x) {
            let i = choose|i: int| 0 <= i < s.len() && (#[trigger] s[i]) == x;
            if i < s.len() - 1 {
                assert(s.drop_last()[i] == x);
                assert(s.drop_last().contains(x));
            }
        }
        if s.drop_last().contains(x) {
            let i = choose|i: int|
                0 <= i < s.drop_last().len() && (#[trigger] s.drop_last()[i]) == x;
            assert(s[i] == x);
            assert(s.contains(x));
        }
    }
}

/// Appending an element adjusts one value's count by its match.
pub proof fn lemma_occ_push(s: Seq<Seq<u8>>, e: Seq<u8>, x: Seq<u8>)
    ensures
        occ(s.push(e), x) == occ(s, x) + (if e == x {
            1nat
        } else {
            0nat
        }),
{
    assert(s.push(e).drop_last() =~= s);
}

/// The greedy scan only shrinks the uncovered set.
pub proof fn lemma_run_tables_remaining_subset(st: EngineState, ts: Seq<TableSnapshotModel>)
    ensures
        run_tables(st, ts).remaining.subset_of(st.remaining),
    decreases ts.len(),
{
    if ts.len() > 0 {
        lemma_run_tables_remaining_subset(st, ts.drop_last());
        let st1 = run_tables(st, ts.drop_last());
        assert(step_table(st1, ts.last()).remaining.subset_of(st1.remaining));
    }
}

/// Tables whose address is not `a` never change how often `a` was matched.
pub proof fn lemma_occ_no_such_table(st: EngineState, ts: Seq<TableSnapshotModel>, a: Seq<u8>)
    requires
        forall|i: int| 0 <= i < ts.len() ==> (#[trigger] ts[i]).lookup_address != a,
    ensures
        occ(run_tables(st, ts).matches, a) == occ(st.matches, a),
    decreases ts.len(),
{
    if ts.len() > 0 {
        assert(forall|i: int| 0 <= i < ts.drop_last().len() ==> ts.drop_last()[i] == ts[i]);
        lemma_occ_no_such_table(st, ts.drop_last(), a);
        let st1 = run_tables(st, ts.drop_last());
        let t = ts.last();
        assert(t.lookup_address != a);
        if table_intersection(t, st1.remaining).len() > 1 {
            assert(st1.matches.push(t.lookup_address).drop_last() =~= st1.matches);
        }
    }
}

/// A table that covers at most one of the accounts uncovered when the scan
/// starts — in particular one disjoint from them, or one overlapping them
/// in exactly one address — is never accepted: its address never enters
/// the matches.
pub proof fn lemma_below_threshold_never_matches(
    st: EngineState,
    ts: Seq<TableSnapshotModel>,
    a: Seq<u8>,
)
    requires
        st.remaining.finite(),
        !st.matches.contains(a),
        forall|i: int|
            (0 <= i < ts.len() && (#[trigger] ts[i]).lookup_address == a)
                ==> ts[i].addresses.to_set().intersect(st.remaining).len() <= 1,
    ensures
        !run_tables(st, ts).matches.contains(a),
    decreases ts.len(),
{
    if ts.len() > 0 {
        assert(forall|i: int| 0 <= i < ts.drop_last().len() ==> ts.drop_last()[i] == ts[i]);
        lemma_below_threshold_never_matches(st, ts.drop_last(), a);
        let st1 = run_tables(st, ts.drop_last());
        let t = ts.last();
        if table_intersection(t, st1.remaining).len() > 1 {
            if t.lookup_address == a {
                assert(ts[ts.len() - 1].lookup_address == a);
                lemma_run_tables_remaining_subset(st, ts.drop_last());
                let big = t.addresses.to_set().intersect(st.remaining);
                let small = t.addresses.to_set().intersect(st1.remaining);
                assert(big.subset_of(st.remaining));
                vstd::set_lib::lemma_set_subset_finite(st.remaining, big);
                assert(small.subset_of(big));
                lemma_len_subset(small, big);
                assert(false);
            } else {
                lemma_push_contains_all(st1.matches, t.lookup_address);
            }
        }
    }
}

/// A table whose intersection with the accounts still uncovered at its
/// turn holds more than one address is accepted exactly once, and every
/// member address it covers leaves the uncovered set for good.
pub proof fn lemma_accepted_table(st: EngineState, ts: Seq<TableSnapshotModel>, k: int)
    requires
        st.remaining.finite(),
        0 <= k < ts.len(),
        !st.matches.contains(ts[k].lookup_address),
        forall|i: int|
            (0 <= i < ts.len() && i != k) ==> (#[trigger] ts[i]).lookup_address != ts[
                k
            ].lookup_address,
        table_intersection(ts[k], run_tables(st, ts.take(k)).remaining).len() > 1,
    ensures
        occ(run_tables(st, ts).matches, ts[k].lookup_address) == 1,
        ts[k].addresses.to_set().intersect(run_tables(st, ts).remaining) == Set::<Seq<u8>>::empty(),
{
    let a = ts[k].lookup_address;
    let stk = run_tables(st, ts.take(k));
    assert(ts.take(k + 1).drop_last() =~= ts.take(k));
    assert(ts.take(k + 1).last() == ts[k]);
    let stk1 = run_tables(st, ts.take(k + 1));
    assert(stk1 == step_table(stk, ts[k]));
    lemma_occ_zero(st.matches, a);
    assert(forall|i: int| 0 <= i < ts.take(k).len() ==> (#[trigger] ts.take(k)[i]) == ts[i]);
    lemma_occ_no_such_table(st, ts.take(k), a);
    assert(stk1.matches == stk.matches.push(a));
    assert(stk.matches.push(a).drop_last() =~= stk.matches);
    assert(occ(stk1.matches, a) == 1);
    let inter = table_intersection(ts[k], stk.remaining);
    assert(stk1.remaining == stk.remaining.difference(inter));
    assert(ts[k].addresses.to_set().intersect(stk1.remaining) =~= Set::<Seq<u8>>::empty());
    assert(ts =~= ts.take(k + 1) + ts.skip(k + 1));
    lemma_run_tables_concat(st, ts.take(k + 1), ts.skip(k + 1));
    let rest = ts.skip(k + 1);
    assert(forall|j: int| 0 <= j < rest.len() ==> (#[trigger] rest[j]) == ts[k + 1 + j]);
    assert(forall|j: int| 0 <= j < rest.len() ==> (#[trigger] rest[j]).lookup_address != a);
    lemma_occ_no_such_table(stk1, rest, a);
    assert(run_tables(st, ts) == run_tables(stk1, rest));
    lemma_run_tables_remaining_subset(stk1, rest);
    assert(ts[k].addresses.to_set().intersect(run_tables(st, ts).remaining) =~= Set::<
        Seq<u8>,
    >::empty());
}

/// Identical instruction batches, authority lists, cache contents and
/// instants produce identical outputs: the engine is a pure function of
/// its inputs.
pub proof fn lemma_find_addresses_deterministic(
    ixs1: Seq<InstructionModel>,
    auths1: Seq<Seq<u8>>,
    cmap1: Map<Seq<u8>, (RegistrySnapshotModel, u64)>,
    now1: u64,
    ixs2: Seq<InstructionModel>,
    auths2: Seq<Seq<u8>>,
    cmap2: Map<Seq<u8>, (RegistrySnapshotModel, u64)>,
    now2: u64,
)
    requires
        ixs1 == ixs2,
        auths1 == auths2,
        cmap1 == cmap2,
        now1 == now2,
    ensures
        spec_find_addresses(ixs1, auths1, cmap1, now1) == spec_find_addresses(
            ixs2,
            auths2,
            cmap2,
            now2,
        ),
{
}

/// Within a full engine run over distinct-addressed tables, a consulted
/// table disjoint from the distinct account set, or overlapping it in
/// exactly one address, never appears in the matches.
pub proof fn lemma_find_addresses_threshold(
    ixs: Seq<InstructionModel>,
    auths: Seq<Seq<u8>>,
    cmap: Map<Seq<u8>, (RegistrySnapshotModel, u64)>,
    now: u64,
    k: int,
)
    requires
        0 <= k < consulted_tables(auths, cmap, now).len(),
        forall|i: int|
            (0 <= i < consulted_tables(auths, cmap, now).len() && i != k) ==> (
            #[trigger] consulted_tables(auths, cmap, now)[i]).lookup_address != consulted_tables(
                auths,
                cmap,
                now,
            )[k].lookup_address,
        consulted_tables(auths, cmap, now)[k].addresses.to_set().intersect(
            spec_dedup(all_accounts(ixs)).to_set(),
        ).len() <= 1,
    ensures
        !spec_find_addresses(ixs, auths, cmap, now).0.contains(
            consulted_tables(auths, cmap, now)[k].lookup_address,
        ),
{
    let ts = consulted_tables(auths, cmap, now);
    let a = ts[k].lookup_address;
    let d = spec_dedup(all_accounts(ixs));
    vstd::seq_lib::seq_to_set_is_finite(d);
    let st0 = EngineState { matches: Seq::empty(), remaining: d.to_set() };
    assert forall|i: int| (0 <= i < ts.len() && (#[trigger] ts[i]).lookup_address == a) implies ts[
        i
    ].addresses.to_set().intersect(st0.remaining).len() <= 1 by {
        assert(i == k);
    }
    lemma_below_threshold_never_matches(st0, ts, a);
}

/// Within a full engine run over distinct-addressed tables, a consulted
/// table that covers more than one account still uncovered at its turn
/// appears in the matches exactly once, and every account it covers leaves
/// the unmatched set.
pub proof fn lemma_find_addresses_accepted(
    ixs: Seq<InstructionModel>,
    auths: Seq<Seq<u8>>,
    cmap: Map<Seq<u8>, (RegistrySnapshotModel, u64)>,
    now: u64,
    k: int,
)
    requires
        0 <= k < consulted_tables(auths, cmap, now).len(),
        forall|i: int|
            (0 <= i < consulted_tables(auths, cmap, now).len() && i != k) ==> (
            #[trigger] consulted_tables(auths, cmap, now)[i]).lookup_address != consulted_tables(
                auths,
                cmap,
                now,
            )[k].lookup_address,
        table_intersection(
            consulted_tables(auths, cmap, now)[k],
            run_tables(
                EngineState {
                    matches: Seq::empty(),
                    remaining: spec_dedup(all_accounts(ixs)).to_set(),
                },
                consulted_tables(auths, cmap, now).take(k),
            ).remaining,
        ).len() > 1,
    ensures
        occ(
            spec_find_addresses(ixs, auths, cmap, now).0,
            consulted_tables(auths, cmap, now)[k].lookup_address,
        ) == 1,
        consulted_tables(auths, cmap, now)[k].addresses.to_set().intersect(
            run_tables(
                EngineState {
                    matches: Seq::empty(),
                    remaining: spec_dedup(all_accounts(ixs)).to_set(),
                },
                consulted_tables(auths, cmap, now),
            ).remaining,
        ) == Set::<Seq<u8>>::empty(),
{
    let ts = consulted_tables(auths, cmap, now);
    let d = spec_dedup(all_accounts(ixs));
    vstd::seq_lib::seq_to_set_is_finite(d);
    let st0 = EngineState { matches: Seq::empty(), remaining: d.to_set() };
    lemma_accepted_table(st0, ts, k);
}

/// A batch of two instructions that together reference ten distinct
/// accounts: two target programs and eight plain accounts.
pub open spec fn ten_account_batch(addrs: Seq<Seq<u8>>) -> Seq<InstructionModel> {
    seq![
        (InstructionModel {
            program_id: addrs[0],
            accounts: seq![addrs[1], addrs[2], addrs[3], addrs[4]],
        }),
        (InstructionModel {
            program_id: addrs[5],
            accounts: seq![addrs[6], addrs[7], addrs[8], addrs[9]],
        }),
    ]
}

/// Ten distinct referenced accounts, one fresh snapshot holding a single
/// table that covers six of the ten plus two unrelated addresses: the
/// engine chooses exactly that table, counts ten distinct accounts, and
/// leaves four uncovered.
pub proof fn lemma_six_of_ten_covered(
    addrs: Seq<Seq<u8>>,
    table_addr: Seq<u8>,
    authority: Seq<u8>,
    version: u8,
    discriminator: u64,
    expiry: u64,
    now: u64,
)
    requires
        addrs.len() == 12,
        addrs.no_duplicates(),
        now < expiry,
    ensures
        ({
            let table = (TableSnapshotModel {
                discriminator,
                lookup_address: table_addr,
                addresses: seq![
                    addrs[1], addrs[2], addrs[3], addrs[6], addrs[7], addrs[8], addrs[10],
                    addrs[11],
                ],
            });
            let snap = (RegistrySnapshotModel { authority, version, tables: seq![table] });
            let cmap = Map::<Seq<u8>, (RegistrySnapshotModel, u64)>::empty().insert(
                authority,
                (snap, expiry),
            );
            spec_find_addresses(ten_account_batch(addrs), seq![authority], cmap, now) == (
                seq![table_addr],
                10nat,
                4nat,
            )
        }),
{
    let table = TableSnapshotModel {
        discriminator,
        lookup_address: table_addr,
        addresses: seq![
            addrs[1], addrs[2], addrs[3], addrs[6], addrs[7], addrs[8], addrs[10], addrs[11],
        ],
    };
    let snap = RegistrySnapshotModel { authority, version, tables: seq![table] };
    let cmap = Map::<Seq<u8>, (RegistrySnapshotModel, u64)>::empty().insert(
        authority,
        (snap, expiry),
    );
    let ixs = ten_account_batch(addrs);
    let ix1 = ixs[0];
    let ix2 = ixs[1];
    assert(ixs.drop_last() =~= seq![ix1]);
    assert(seq![ix1].drop_last() =~= Seq::<InstructionModel>::empty());
    assert(all_accounts(Seq::<InstructionModel>::empty()) =~= Seq::<Seq<u8>>::empty());
    assert(all_accounts(seq![ix1]) =~= instruction_accounts(ix1));
    assert(all_accounts(ixs) =~= instruction_accounts(ix1) + instruction_accounts(ix2));
    let flat = all_accounts(ixs);
    assert(flat =~= addrs.take(10));
    assert(addrs.take(10).no_duplicates()) by {
        assert forall|p: int, q: int|
            0 <= p < 10 && 0 <= q < 10 && p != q implies addrs.take(10)[p] != addrs.take(
            10,
        )[q] by {
            assert(addrs.take(10)[p] == addrs[p] && addrs.take(10)[q] == addrs[q]);
        }
    }
    lemma_dedup_identity(addrs.take(10));
    let d = spec_dedup(flat);
    assert(d == addrs.take(10));
    assert(d.len() == 10);
    let auths = seq![authority];
    assert(auths.drop_last() =~= Seq::<Seq<u8>>::empty());
    assert(consulted_tables(Seq::<Seq<u8>>::empty(), cmap, now) =~= Seq::<
        TableSnapshotModel,
    >::empty());
    assert(fresh_at(cmap, authority, now));
    assert(consulted_tables(auths, cmap, now) =~= seq![table]);
    let st0 = EngineState { matches: Seq::<Seq<u8>>::empty(), remaining: d.to_set() };
    let ts = seq![table];
    assert(ts.drop_last() =~= Seq::<TableSnapshotModel>::empty());
    assert(run_tables(st0, Seq::<TableSnapshotModel>::empty()) == st0);
    assert(run_tables(st0, ts) == step_table(st0, table));
    let overlap = seq![addrs[1], addrs[2], addrs[3], addrs[6], addrs[7], addrs[8]];
    let inter = table_intersection(table, st0.remaining);
    assert(inter =~= overlap.to_set()) by {
        assert forall|x: Seq<u8>| inter.contains(x) implies overlap.to_set().contains(x) by {
            assert(table.addresses.contains(x));
            let i = choose|i: int|
                0 <= i < table.addresses.len() && (#[trigger] table.addresses[i]) == x;
            assert(addrs.take(10).contains(x));
            let j = choose|j: int| 0 <= j < 10 && (#[trigger] addrs.take(10)[j]) == x;
            assert(addrs[j] == x);
            if i >= 6 {
                assert(x == addrs[10] || x == addrs[11]);
                assert(false);
            } else {
                assert(overlap[i] == x);
                assert(overlap.contains(x));
            }
        }
        assert forall|x: Seq<u8>| overlap.to_set().contains(x) implies inter.contains(x) by {
            assert(overlap.contains(x));
            let i = choose|i: int| 0 <= i < overlap.len() && (#[trigger] overlap[i]) == x;
            assert(table.addresses[i] == x);
            assert(table.addresses.contains(x));
            if i == 0 {
                assert(addrs.take(10)[1] == x);
            } else if i == 1 {
                assert(addrs.take(10)[2] == x);
            } else if i == 2 {
                assert(addrs.take(10)[3] == x);
            } else if i == 3 {
                assert(addrs.take(10)[6] == x);
            } else if i == 4 {
                assert(addrs.take(10)[7] == x);
            } else {
                assert(addrs.take(10)[8] == x);
            }
            assert(addrs.take(10).contains(x));
            assert(st0.remaining.contains(x));
        }
    }
    assert(overlap.no_duplicates()) by {
        assert forall|p: int, q: int|
            0 <= p < 6 && 0 <= q < 6 && p != q implies overlap[p] != overlap[q] by {
        }
    }
    overlap.unique_seq_to_set();
    assert(inter.len() == 6);
    let st1 = step_table(st0, table);
    assert(st1.matches =~= seq![table_addr]);
    let leftover = seq![addrs[0], addrs[4], addrs[5], addrs[9]];
    assert(st1.remaining =~= leftover.to_set()) by {
        assert forall|x: Seq<u8>| st1.remaining.contains(x) implies leftover.to_set().contains(
            x,
        ) by {
            assert(addrs.take(10).contains(x));
            let j = choose|j: int| 0 <= j < 10 && (#[trigger] addrs.take(10)[j]) == x;
            assert(addrs[j] == x);
            assert(!inter.contains(x));
            if j == 1 || j == 2 || j == 3 || j == 6 || j == 7 || j == 8 {
                assert(overlap.contains(x)) by {
                    if j == 1 {
                        assert(overlap[0] == x);
                    } else if j == 2 {
                        assert(overlap[1] == x);
                    } else if j == 3 {
                        assert(overlap[2] == x);
                    } else if j == 6 {
                        assert(overlap[3] == x);
                    } else if j == 7 {
                        assert(overlap[4] == x);
                    } else {
                        assert(overlap[5] == x);
                    }
                }
                assert(false);
            } else {
                assert(leftover.contains(x)) by {
                    if j == 0 {
                        assert(leftover[0] == x);
                    } else if j == 4 {
                        assert(leftover[1] == x);
                    } else if j == 5 {
                        assert(leftover[2] == x);
                    } else {
                        assert(leftover[3] == x);
                    }
                }
            }
        }
        assert forall|x: Seq<u8>| leftover.to_set().contains(x) implies st1.remaining.contains(
            x,
        ) by {
            assert(leftover.contains(x));
            let i = choose|i: int| 0 <= i < leftover.len() && (#[trigger] leftover[i]) == x;
            if i == 0 {
                assert(addrs.take(10)[0] == x);
            } else if i == 1 {
                assert(addrs.take(10)[4] == x);
            } else if i == 2 {
                assert(addrs.take(10)[5] == x);
            } else {
                assert(addrs.take(10)[9] == x);
            }
            assert(addrs.take(10).contains(x));
            assert(st0.remaining.contains(x));
            assert(!inter.contains(x)) by {
                if inter.contains(x) {
                    assert(overlap.contains(x));
                    let p = choose|p: int|
                        0 <= p < overlap.len() && (#[trigger] overlap[p]) == x;
                    assert(false);
                }
            }
        }
    }
    assert(leftover.no_duplicates()) by {
        assert forall|p: int, q: int|
            0 <= p < 4 && 0 <= q < 4 && p != q implies leftover[p] != leftover[q] by {
        }
    }
    leftover.unique_seq_to_set();
    assert(st1.remaining.len() == 4);
    assert(spec_find_addresses(ixs, auths, cmap, now) == (seq![table_addr], 10nat, 4nat));
}

/// The same ten-account batch against a table that shares exactly one of
/// the referenced accounts (plus two unrelated addresses): a one-address
/// overlap does not pay for the table reference, so nothing is chosen and
/// all ten accounts stay uncovered.
pub proof fn lemma_single_overlap_rejected(
    addrs: Seq<Seq<u8>>,
    table_addr: Seq<u8>,
    authority: Seq<u8>,
    version: u8,
    discriminator: u64,
    expiry: u64,
    now: u64,
)
    requires
        addrs.len() == 12,
        addrs.no_duplicates(),
        now < expiry,
    ensures
        ({
            let table = (TableSnapshotModel {
                discriminator,
                lookup_address: table_addr,
                addresses: seq![addrs[1], addrs[10], addrs[11]],
            });
            let snap = (RegistrySnapshotModel { authority, version, tables: seq![table] });
            let cmap = Map::<Seq<u8>, (RegistrySnapshotModel, u64)>::empty().insert(
                authority,
                (snap, expiry),
            );
            spec_find_addresses(ten_account_batch(addrs), seq![authority], cmap, now) == (
                Seq::<Seq<u8>>::empty(),
                10nat,
                10nat,
            )
        }),
{
    let table = TableSnapshotModel {
        discriminator,
        lookup_address: table_addr,
        addresses: seq![addrs[1], addrs[10], addrs[11]],
    };
    let snap = RegistrySnapshotModel { authority, version, tables: seq![table] };
    let cmap = Map::<Seq<u8>, (RegistrySnapshotModel, u64)>::empty().insert(
        authority,
        (snap, expiry),
    );
    let ixs = ten_account_batch(addrs);
    let ix1 = ixs[0];
    let ix2 = ixs[1];
    assert(ixs.drop_last() =~= seq![ix1]);
    assert(seq![ix1].drop_last() =~= Seq::<InstructionModel>::empty());
    assert(all_accounts(Seq::<InstructionModel>::empty()) =~= Seq::<Seq<u8>>::empty());
    assert(all_accounts(seq![ix1]) =~= instruction_accounts(ix1));
    assert(all_accounts(ixs) =~= instruction_accounts(ix1) + instruction_accounts(ix2));
    let flat = all_accounts(ixs);
    assert(flat =~= addrs.take(10));
    assert(addrs.take(10).no_duplicates()) by {
        assert forall|p: int, q: int|
            0 <= p < 10 && 0 <= q < 10 && p != q implies addrs.take(10)[p] != addrs.take(
            10,
        )[q] by {
            assert(addrs.take(10)[p] == addrs[p] && addrs.take(10)[q] == addrs[q]);
        }
    }
    lemma_dedup_identity(addrs.take(10));
    let d = spec_dedup(flat);
    assert(d == addrs.take(10));
    assert(d.len() == 10);
    let auths = seq![authority];
    assert(auths.drop_last() =~= Seq::<Seq<u8>>::empty());
    assert(consulted_tables(Seq::<Seq<u8>>::empty(), cmap, now) =~= Seq::<
        TableSnapshotModel,
    >::empty());
    assert(fresh_at(cmap, authority, now));
    assert(consulted_tables(auths, cmap, now) =~= seq![table]);
    let st0 = EngineState { matches: Seq::<Seq<u8>>::empty(), remaining: d.to_set() };
    let ts = seq![table];
    assert(ts.drop_last() =~= Seq::<TableSnapshotModel>::empty());
    assert(run_tables(st0, Seq::<TableSnapshotModel>::empty()) == st0);
    assert(run_tables(st0, ts) == step_table(st0, table));
    let inter = table_intersection(table, st0.remaining);
    assert(inter =~= seq![addrs[1]].to_set()) by {
        assert forall|x: Seq<u8>| inter.contains(x) implies seq![addrs[1]].to_set().contains(
            x,
        ) by {
            assert(table.addresses.contains(x));
            let i = choose|i: int|
                0 <= i < table.addresses.len() && (#[trigger] table.addresses[i]) == x;
            assert(addrs.take(10).contains(x));
            let j = choose|j: int| 0 <= j < 10 && (#[trigger] addrs.take(10)[j]) == x;
            assert(addrs[j] == x);
            if i >= 1 {
                assert(x == addrs[10] || x == addrs[11]);
                assert(false);
            } else {
                assert(seq![addrs[1]][0] == x);
                assert(seq![addrs[1]].contains(x));
            }
        }
        assert forall|x: Seq<u8>| seq![addrs[1]].to_set().contains(x) implies inter.contains(
            x,
        ) by {
            assert(seq![addrs[1]].contains(x));
            assert(x == addrs[1]);
            assert(table.addresses[0] == x);
            assert(table.addresses.contains(x));
            assert(addrs.take(10)[1] == x);
            assert(addrs.take(10).contains(x));
            assert(st0.remaining.contains(x));
        }
    }
    assert(seq![addrs[1]].no_duplicates());
    seq![addrs[1]].unique_seq_to_set();
    assert(inter.len() == 1);
    assert(step_table(st0, table) == st0);
    addrs.take(10).unique_seq_to_set();
    assert(st0.remaining.len() == 10);
    assert(spec_find_addresses(ixs, auths, cmap, now) == (
        Seq::<Seq<u8>>::empty(),
        10nat,
        10nat,
    ));
}

} // verus!
