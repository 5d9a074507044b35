//! Groups: named bundles of contexts and of other groups.
//!
//! A group names member contexts and child groups. Nesting is a chain of
//! groups, each a child of the one before; no chain may be longer than
//! [`MAX_GROUP_DEPTH`], which rules out cycles too.
use crate::names;
use crate::names::{NameMap, NameSet};
use vstd::prelude::*;

verus! {

/// The longest chain of groups, counting both ends.
pub const MAX_GROUP_DEPTH: usize = 3;

/// One group's record.
pub struct GroupRecord {
    pub description: String,
    pub contexts: NameSet,
    pub groups: NameSet,
}

/// What a group's record says.
#[verifier::ext_equal]
pub struct GroupView {
    pub description: Seq<char>,
    pub contexts: Set<Seq<char>>,
    pub groups: Set<Seq<char>>,
}

impl View for GroupRecord {
    type V = GroupView;

    open spec fn view(&self) -> GroupView {
        GroupView { description: self.description@, contexts: self.contexts@, groups: self.groups@ }
    }
}

impl GroupRecord {
    pub open spec fn wf(&self) -> bool {
        self.contexts.wf() && self.groups.wf()
    }

    /// A record that says the same.
    pub fn copy(&self) -> (res: GroupRecord)
        requires
            self.wf(),
        ensures
            res.wf(),
            res@ == self@,
    {
        GroupRecord { description: self.description.clone(), contexts: self.contexts.copy(), groups: self.groups.copy() }
    }

    /// Whether two records say the same.
    pub fn equals(&self, other: &GroupRecord) -> (res: bool)
        requires
            self.wf(),
            other.wf(),
        ensures
            res == (self@ == other@),
    {
        self.description == other.description && self.contexts.equals(&other.contexts) && self.groups.equals(
            &other.groups,
        )
    }
}

/// Every group's name with what its record says.
pub open spec fn group_map(groups: NameMap<GroupRecord>) -> Map<Seq<char>, GroupView> {
    groups@.map_values(|r: GroupRecord| r@)
}

pub open spec fn groups_wf(groups: NameMap<GroupRecord>) -> bool {
    groups.wf() && forall|n: Seq<char>| groups@.contains_key(n) ==> (#[trigger] groups@[n]).wf()
}

/// A chain of `k` groups starts at `n`.
pub open spec fn heads_chain(m: Map<Seq<char>, GroupView>, n: Seq<char>, k: nat) -> bool
    decreases k,
{
    if k == 0 {
        true
    } else if k == 1 {
        m.contains_key(n)
    } else {
        m.contains_key(n) && exists|c: Seq<char>| #[trigger] m[n].groups.contains(c) && heads_chain(m, c, (k - 1) as nat)
    }
}

/// Chains of every length start at `n`.
pub open spec fn heads_endless_chain(m: Map<Seq<char>, GroupView>, n: Seq<char>) -> bool {
    forall|k: nat| heads_chain(m, n, k)
}

/// No chain is longer than the depth cap.
pub open spec fn nesting_fits(m: Map<Seq<char>, GroupView>) -> bool {
    forall|n: Seq<char>| !#[trigger] heads_chain(m, n, (MAX_GROUP_DEPTH + 1) as nat)
}

/// `p` is a chain: each a group of `m`, each after the first a child of the
/// one before.
pub open spec fn is_chain(m: Map<Seq<char>, GroupView>, p: Seq<Seq<char>>) -> bool {
    &&& p.len() > 0
    &&& forall|i: int| 0 <= i < p.len() ==> m.contains_key(#[trigger] p[i])
    &&& forall|i: int, j: int| 0 <= i && j == i + 1 && j < p.len() ==> m[#[trigger] p[i]].groups.contains(#[trigger] p[j])
}

/// A chain that comes back to where it started.
pub open spec fn has_cycle(m: Map<Seq<char>, GroupView>) -> bool {
    exists|p: Seq<Seq<char>>| is_chain(m, p) && p.len() >= 2 && p[0] == #[trigger] p.last()
}

/// How many groups the longest chain from `n` has, in a nesting that fits.
pub open spec fn depth(m: Map<Seq<char>, GroupView>, n: Seq<char>) -> nat {
    if heads_chain(m, n, 3) {
        3
    } else if heads_chain(m, n, 2) {
        2
    } else {
        1
    }
}

/// A shorter chain starts wherever a longer one does.
pub proof fn shorter_chain(m: Map<Seq<char>, GroupView>, n: Seq<char>, k: nat, l: nat)
    requires
        heads_chain(m, n, k),
        l <= k,
    ensures
        heads_chain(m, n, l),
    decreases k,
{
    if k >= 2 && l >= 2 {
        let c = choose|c: Seq<char>| #[trigger] m[n].groups.contains(c) && heads_chain(m, c, (k - 1) as nat);
        shorter_chain(m, c, (k - 1) as nat, (l - 1) as nat);
    }
}

/// A chain of `k` groups from `n`, written out.
proof fn written_out(m: Map<Seq<char>, GroupView>, n: Seq<char>, k: nat) -> (p: Seq<Seq<char>>)
    requires
        heads_chain(m, n, k),
        k > 0,
    ensures
        is_chain(m, p),
        p.len() == k,
        p[0] == n,
    decreases k,
{
    if k == 1 {
        seq![n]
    } else {
        let c = choose|c: Seq<char>| #[trigger] m[n].groups.contains(c) && heads_chain(m, c, (k - 1) as nat);
        let rest = written_out(m, c, (k - 1) as nat);
        let p = seq![n] + rest;
        assert forall|i: int, j: int| 0 <= i && j == i + 1 && j < p.len() implies m[#[trigger] p[i]].groups.contains(
            #[trigger] p[j],
        ) by {
            if i > 0 {
                assert(p[i] == rest[i - 1] && p[j] == rest[j - 1]);
            }
        }
        assert forall|i: int| 0 <= i < p.len() implies m.contains_key(#[trigger] p[i]) by {
            if i > 0 {
                assert(p[i] == rest[i - 1]);
            }
        }
        p
    }
}

/// A chain from the end of a written-out chain lengthens it.
proof fn prolonged(m: Map<Seq<char>, GroupView>, p: Seq<Seq<char>>, i: int, j: int, k: nat)
    requires
        is_chain(m, p),
        0 <= i <= j < p.len(),
        k > 0,
        heads_chain(m, p[j], k),
    ensures
        heads_chain(m, p[i], (k + (j - i)) as nat),
    decreases j - i,
{
    if i < j {
        prolonged(m, p, i + 1, j, k);
        assert(m[p[i]].groups.contains(p[i + 1]));
        assert(heads_chain(m, p[i + 1], (k + (j - i) - 1) as nat));
    }
}

/// Where a chain meets itself again, chains of every length start.
proof fn loop_is_endless(m: Map<Seq<char>, GroupView>, p: Seq<Seq<char>>, i: int, j: int, k: nat)
    requires
        is_chain(m, p),
        0 <= i < j < p.len(),
        p[i] == p[j],
    ensures
        heads_chain(m, p[i], k),
    decreases k,
{
    if k <= 1 {
    } else {
        loop_is_endless(m, p, i, j, (k - 1) as nat);
        prolonged(m, p, i, j, (k - 1) as nat);
        shorter_chain(m, p[i], (k - 1 + (j - i)) as nat, k);
    }
}

/// With `m` finite, a chain longer than the number of groups is endless.
proof fn long_is_endless(m: Map<Seq<char>, GroupView>, n: Seq<char>, k: nat)
    requires
        m.dom().finite(),
        k > m.dom().len(),
        heads_chain(m, n, k),
    ensures
        heads_endless_chain(m, n),
        has_cycle(m),
{
    let p = written_out(m, n, k);
    if p.no_duplicates() {
        p.unique_seq_to_set();
        assert(p.to_set().subset_of(m.dom()));
        vstd::set_lib::lemma_len_subset(p.to_set(), m.dom());
    }
    let (i, j) = choose|i: int, j: int| 0 <= i < p.len() && 0 <= j < p.len() && i != j && #[trigger] p[i] == #[trigger] p[j];
    let (a, b) = if i < j { (i, j) } else { (j, i) };
    assert forall|l: nat| heads_chain(m, n, l) by {
        loop_is_endless(m, p, a, b, l + 1);
        prolonged(m, p, 0, a, l + 1);
        shorter_chain(m, n, (l + 1 + a) as nat, l);
    }
    let q = p.subrange(a, b + 1);
    assert(is_chain(m, q)) by {
        assert forall|x: int, y: int| 0 <= x && y == x + 1 && y < q.len() implies m[#[trigger] q[x]].groups.contains(
            #[trigger] q[y],
        ) by {
            assert(q[x] == p[a + x] && q[y] == p[a + y]);
        }
    }
    assert(q[0] == q.last());
}

/// Among finitely many groups, some chain comes back to where it started
/// exactly if chains of every length start somewhere.
pub proof fn cycle_iff_endless(m: Map<Seq<char>, GroupView>)
    requires
        m.dom().finite(),
    ensures
        has_cycle(m) <==> exists|n: Seq<char>| #[trigger] heads_endless_chain(m, n),
{
    if has_cycle(m) {
        let p = choose|p: Seq<Seq<char>>| is_chain(m, p) && p.len() >= 2 && p[0] == #[trigger] p.last();
        assert forall|k: nat| heads_chain(m, p[0], k) by {
            loop_is_endless(m, p, 0, p.len() - 1, k);
        }
        assert(heads_endless_chain(m, p[0]));
    }
    if exists|n: Seq<char>| #[trigger] heads_endless_chain(m, n) {
        let n = choose|n: Seq<char>| #[trigger] heads_endless_chain(m, n);
        assert(heads_chain(m, n, m.dom().len() + 1));
        long_is_endless(m, n, m.dom().len() + 1);
    }
}

/// A nesting that fits has no cycle and no chain beyond the cap.
pub proof fn fitting_nesting_is_acyclic(m: Map<Seq<char>, GroupView>, p: Seq<Seq<char>>)
    requires
        nesting_fits(m),
        is_chain(m, p),
    ensures
        p.len() <= MAX_GROUP_DEPTH,
        p.len() >= 2 ==> p[0] != p.last(),
{
    if p.len() >= 2 && p[0] == p.last() {
        loop_is_endless(m, p, 0, p.len() - 1, (MAX_GROUP_DEPTH + 1) as nat);
    }
    if p.len() > MAX_GROUP_DEPTH {
        assert(heads_chain(m, p.last(), 1));
        prolonged(m, p, 0, p.len() - 1, 1);
        shorter_chain(m, p[0], p.len(), (MAX_GROUP_DEPTH + 1) as nat);
    }
}

/// What is wrong with a nesting, at the first group in name order.
pub enum NestingViolation {
    /// Chains from this group never end.
    Cycle(String),
    /// A chain from this group is longer than the cap.
    TooDeep(String),
}

/// `n` is the first name, in name order, that satisfies `p`.
pub open spec fn first_such(n: Seq<char>, p: spec_fn(Seq<char>) -> bool) -> bool {
    p(n) && forall|o: Seq<char>| #[trigger] p(o) ==> !names::before(o, n)
}

/// What [`validate_nesting`] answers: a cycle is reported before a depth.
pub open spec fn nesting_verdict(m: Map<Seq<char>, GroupView>, verdict: Result<(), NestingViolation>) -> bool {
    match verdict {
        Ok(_) => nesting_fits(m),
        Err(NestingViolation::Cycle(n)) => first_such(n@, |o: Seq<char>| heads_endless_chain(m, o)),
        Err(NestingViolation::TooDeep(n)) => !has_cycle(m) && first_such(
            n@,
            |o: Seq<char>| heads_chain(m, o, (MAX_GROUP_DEPTH + 1) as nat),
        ),
    }
}

/// The groups that a chain of `steps + 1` starts at.
fn chain_heads(groups: &NameMap<GroupRecord>, steps: usize) -> (res: NameSet)
    requires
        groups_wf(*groups),
    ensures
        res.wf(),
        forall|n: Seq<char>| #[trigger] res@.contains(n) == heads_chain(group_map(*groups), n, (steps + 1) as nat),
{
    let ghost m = group_map(*groups);
    let n: usize = groups.len();
    let mut res = NameSet::new();
    let mut i: usize = 0;
    proof {
        groups.order_is_domain();
    }
    while i < n
        invariant
            groups.wf(),
            n == groups.order().len(),
            i <= n,
            res.wf(),
            forall|x: Seq<char>| #[trigger] res@.contains(x) <==> groups.order().take(i as int).contains(x),
        decreases n - i,
    {
        let name = groups.key_at(i).clone();
        res.insert(name);
        proof {
            let t = groups.order().take(i as int);
            assert(groups.order().take(i + 1) =~= t.push(name@));
            assert forall|x: Seq<char>| groups.order().take(i + 1).contains(x) <==> (t.contains(x) || x == name@) by {
                if t.contains(x) {
                    let j = choose|j: int| 0 <= j < t.len() && t[j] == x;
                    assert(t.push(name@)[j] == x);
                }
                assert(t.push(name@)[i as int] == name@);
            }
        }
        i = i + 1;
    }
    assert(groups.order().take(n as int) =~= groups.order());
    let mut l: usize = 0;
    while l < steps
        invariant
            groups_wf(*groups),
            m == group_map(*groups),
            n == groups.order().len(),
            l <= steps,
            res.wf(),
            forall|x: Seq<char>| #[trigger] res@.contains(x) == heads_chain(m, x, (l + 1) as nat),
        decreases steps - l,
    {
        let mut next = NameSet::new();
        let mut i: usize = 0;
        while i < n
            invariant
                groups_wf(*groups),
                m == group_map(*groups),
                n == groups.order().len(),
                l < steps,
                i <= n,
                res.wf(),
                next.wf(),
                forall|x: Seq<char>| #[trigger] res@.contains(x) == heads_chain(m, x, (l + 1) as nat),
                forall|x: Seq<char>| #[trigger]
                    next@.contains(x) <==> groups.order().take(i as int).contains(x) && heads_chain(m, x, (l + 2) as nat),
            decreases n - i,
        {
            let name = groups.key_at(i).clone();
            let record = groups.value_at(i);
            let hit = meets(&record.groups, &res);
            proof {
                assert(m[name@] == record@);
                if hit {
                    let c = choose|c: Seq<char>| record.groups@.contains(c) && res@.contains(c);
                    assert(m[name@].groups.contains(c) && heads_chain(m, c, (l + 1) as nat));
                }
                assert(hit == heads_chain(m, name@, (l + 2) as nat)) by {
                    if heads_chain(m, name@, (l + 2) as nat) {
                        let c = choose|c: Seq<char>|
                            #[trigger] m[name@].groups.contains(c) && heads_chain(m, c, (l + 1) as nat);
                        assert(res@.contains(c));
                    }
                }
                let t = groups.order().take(i as int);
                assert(groups.order().take(i + 1) =~= t.push(name@));
                assert forall|x: Seq<char>| groups.order().take(i + 1).contains(x) <==> (t.contains(x) || x == name@) by {
                    if t.contains(x) {
                        let j = choose|j: int| 0 <= j < t.len() && t[j] == x;
                        assert(t.push(name@)[j] == x);
                    }
                    assert(t.push(name@)[i as int] == name@);
                }
            }
            if hit {
                next.insert(name);
            }
            i = i + 1;
        }
        proof {
            assert(groups.order().take(n as int) =~= groups.order());
            groups.order_is_domain();
        }
        res = next;
        l = l + 1;
    }
    res
}

/// Whether two sets share a name.
fn meets(a: &NameSet, b: &NameSet) -> (res: bool)
    requires
        a.wf(),
        b.wf(),
    ensures
        res == exists|c: Seq<char>| a@.contains(c) && b@.contains(c),
{
    let n: usize = a.len();
    let mut i: usize = 0;
    proof {
        a.order_is_members();
    }
    while i < n
        invariant
            a.wf(),
            b.wf(),
            n == a.order().len(),
            i <= n,
            forall|j: int| 0 <= j < i ==> !b@.contains(#[trigger] a.order()[j]),
        decreases n - i,
    {
        if b.contains(a.at(i).as_str()) {
            return true;
        }
        i = i + 1;
    }
    proof {
        assert forall|c: Seq<char>| a@.contains(c) implies !b@.contains(c) by {
            a.order_is_members();
            assert(a.order().contains(c));
        }
    }
    false
}

/// Judges a nesting: a cycle anywhere is reported first, then a chain beyond
/// the cap.
pub fn validate_nesting(groups: &NameMap<GroupRecord>) -> (res: Result<(), NestingViolation>)
    requires
        groups_wf(*groups),
    ensures
        nesting_verdict(group_map(*groups), res),
        res is Ok <==> nesting_fits(group_map(*groups)),
{
    let ghost m = group_map(*groups);
    let n: usize = groups.len();
    proof {
        groups.order_is_domain();
        assert(m.dom() =~= groups@.dom());
        cycle_iff_endless(m);
    }
    if n > 0 {
        // With `n` groups, a chain of `n + 1` has come round.
        let endless = chain_heads(groups, n);
        if !endless.is_empty() {
            let first = endless.at(0).clone();
            proof {
                endless.order_is_members();
                assert(endless.order()[0] == first@);
                long_is_endless(m, first@, (n + 1) as nat);
                assert(heads_chain(m, first@, (MAX_GROUP_DEPTH + 1) as nat));
                assert forall|o: Seq<char>| #[trigger] heads_endless_chain(m, o) implies !names::before(o, first@) by {
                    assert(heads_chain(m, o, (n + 1) as nat));
                    assert(endless@.contains(o));
                    let j = choose|j: int| 0 <= j < endless.order().len() && endless.order()[j] == o;
                    names::before_irreflexive(o);
                    if j > 0 && names::before(o, first@) {
                        names::before_transitive(o, first@, o);
                    }
                }
            }
            return Err(NestingViolation::Cycle(first));
        }
        proof {
            if exists|o: Seq<char>| #[trigger] heads_endless_chain(m, o) {
                let o = choose|o: Seq<char>| #[trigger] heads_endless_chain(m, o);
                assert(heads_chain(m, o, (n + 1) as nat));
                assert(endless@.contains(o));
            }
        }
    }
    let deep = chain_heads(groups, MAX_GROUP_DEPTH);
    if !deep.is_empty() {
        let first = deep.at(0).clone();
        proof {
            deep.order_is_members();
            if has_cycle(m) {
                let o = choose|o: Seq<char>| #[trigger] heads_endless_chain(m, o);
                assert(heads_chain(m, o, 1));
            }
            assert forall|o: Seq<char>| #[trigger] heads_chain(m, o, (MAX_GROUP_DEPTH + 1) as nat) implies !names::before(o, first@) by {
                assert(deep@.contains(o));
                let j = choose|j: int| 0 <= j < deep.order().len() && deep.order()[j] == o;
                names::before_irreflexive(o);
                if j > 0 && names::before(o, first@) {
                    names::before_transitive(o, first@, o);
                }
            }
        }
        return Err(NestingViolation::TooDeep(first));
    }
    proof {
        assert forall|o: Seq<char>| !#[trigger] heads_chain(m, o, (MAX_GROUP_DEPTH + 1) as nat) by {
            assert(!deep@.contains(o));
        }
    }
    Ok(())
}

/// `g` is one of the groups in `roots`, or nested below one of them.
pub open spec fn below(m: Map<Seq<char>, GroupView>, roots: Set<Seq<char>>, g: Seq<char>) -> bool {
    exists|p: Seq<Seq<char>>| is_chain(m, p) && roots.contains(p[0]) && #[trigger] p.last() == g
}

/// Every context that the groups in `roots` address: their own members and
/// those of everything nested below them.
pub open spec fn addressed(m: Map<Seq<char>, GroupView>, roots: Set<Seq<char>>) -> Set<Seq<char>> {
    Set::new(|c: Seq<char>| exists|g: Seq<char>| below(m, roots, g) && #[trigger] m[g].contexts.contains(c))
}

/// A root that is a group is below the roots.
proof fn root_is_below(m: Map<Seq<char>, GroupView>, roots: Set<Seq<char>>, g: Seq<char>)
    requires
        roots.contains(g),
        m.contains_key(g),
    ensures
        below(m, roots, g),
{
    let p = seq![g];
    assert(is_chain(m, p) && p.last() == g);
}

/// A child of a group below the roots is below them too.
proof fn child_is_below(m: Map<Seq<char>, GroupView>, roots: Set<Seq<char>>, g: Seq<char>, c: Seq<char>)
    requires
        below(m, roots, g),
        m[g].groups.contains(c),
        m.contains_key(c),
    ensures
        below(m, roots, c),
{
    let p = choose|p: Seq<Seq<char>>| is_chain(m, p) && roots.contains(p[0]) && #[trigger] p.last() == g;
    let q = p.push(c);
    assert forall|i: int, j: int| 0 <= i && j == i + 1 && j < q.len() implies m[#[trigger] q[i]].groups.contains(
        #[trigger] q[j],
    ) by {
        if j < p.len() {
            assert(q[i] == p[i] && q[j] == p[j]);
        }
    }
    assert(is_chain(m, q) && q[0] == p[0] && q.last() == c);
}

/// A set that holds the roots and is closed under children holds everything
/// below the roots.
proof fn closed_holds_all(
    m: Map<Seq<char>, GroupView>,
    roots: Set<Seq<char>>,
    held: Set<Seq<char>>,
    p: Seq<Seq<char>>,
)
    requires
        is_chain(m, p),
        roots.contains(p[0]),
        forall|g: Seq<char>| roots.contains(g) && m.contains_key(g) ==> #[trigger] held.contains(g),
        forall|g: Seq<char>, c: Seq<char>| #[trigger] held.contains(g) && #[trigger] m[g].groups.contains(c) && m.contains_key(c)
            ==> held.contains(c),
    ensures
        held.contains(p.last()),
    decreases p.len(),
{
    if p.len() == 1 {
        assert(m.contains_key(p[0]));
    } else {
        let q = p.drop_last();
        assert(is_chain(m, q)) by {
            assert forall|i: int, j: int| 0 <= i && j == i + 1 && j < q.len() implies m[#[trigger] q[i]].groups.contains(
                #[trigger] q[j],
            ) by {
                assert(q[i] == p[i] && q[j] == p[j]);
            }
        }
        closed_holds_all(m, roots, held, q);
        assert(m[p[p.len() - 2]].groups.contains(p[p.len() - 1]));
        assert(q.last() == p[p.len() - 2]);
    }
}

/// The groups below `roots`, each once, roots first.
fn walk_below(groups: &NameMap<GroupRecord>, roots: &Vec<String>) -> (res: Vec<String>)
    requires
        groups_wf(*groups),
    ensures
        forall|g: Seq<char>| #[trigger]
            names::views(res@).contains(g) <==> below(group_map(*groups), names::views(roots@).to_set(), g),
{
    let ghost m = group_map(*groups);
    let ghost rs = names::views(roots@).to_set();
    let mut queue: Vec<String> = Vec::new();
    let mut seen = NameSet::new();
    let mut i: usize = 0;
    while i < roots.len()
        invariant
            groups_wf(*groups),
            m == group_map(*groups),
            rs == names::views(roots@).to_set(),
            i <= roots.len(),
            seen.wf(),
            names::views(queue@).no_duplicates(),
            forall|g: Seq<char>| #[trigger] names::views(queue@).contains(g) <==> seen@.contains(g),
            forall|g: Seq<char>| #[trigger] seen@.contains(g) ==> m.contains_key(g) && below(m, rs, g),
            forall|j: int| 0 <= j < i && m.contains_key(#[trigger] names::views(roots@)[j]) ==> seen@.contains(names::views(roots@)[j]),
        decreases roots.len() - i,
    {
        let root = &roots[i];
        assert(names::views(roots@)[i as int] == root@);
        if groups.contains(root.as_str()) && !seen.contains(root.as_str()) {
            proof {
                assert(names::views(roots@).contains(root@));
                root_is_below(m, rs, root@);
                pushed_view(queue@, *root);
            }
            seen.insert(root.clone());
            queue.push(root.clone());
        }
        i = i + 1;
    }
    assert forall|g: Seq<char>| rs.contains(g) && m.contains_key(g) implies #[trigger] seen@.contains(g) by {
        let j = choose|j: int| 0 <= j < names::views(roots@).len() && names::views(roots@)[j] == g;
        assert(m.contains_key(names::views(roots@)[j]));
    }
    let mut i: usize = 0;
    proof {
        groups.order_is_domain();
        assert(m.dom() =~= groups@.dom());
        room_left(m, names::views(queue@));
    }
    while i < queue.len()
        invariant
            m.dom().finite(),
            groups_wf(*groups),
            m == group_map(*groups),
            i <= queue.len(),
            queue.len() <= m.dom().len(),
            seen.wf(),
            names::views(queue@).no_duplicates(),
            forall|g: Seq<char>| #[trigger] names::views(queue@).contains(g) <==> seen@.contains(g),
            forall|g: Seq<char>| #[trigger] seen@.contains(g) ==> m.contains_key(g) && below(m, rs, g),
            forall|g: Seq<char>| rs.contains(g) && m.contains_key(g) ==> #[trigger] seen@.contains(g),
            forall|j: int, c: Seq<char>| 0 <= j < i && #[trigger] m[names::views(queue@)[j]].groups.contains(c) && m.contains_key(c)
                ==> seen@.contains(c),
        decreases m.dom().len() - i,
    {
        let name = queue[i].clone();
        assert(names::views(queue@)[i as int] == name@);
        assert(names::views(queue@).contains(name@));
        assert(m.contains_key(name@));
        let record = match groups.get(name.as_str()) {
            Some(r) => r,
            None => {
                return queue;
            },
        };
        assert(m[name@] == record@);
        let n: usize = record.groups.len();
        let mut j: usize = 0;
        while j < n
            invariant
                m.dom().finite(),
                groups_wf(*groups),
                m == group_map(*groups),
                record.wf(),
                m.contains_key(name@),
                m[name@] == record@,
                n == record.groups.order().len(),
                j <= n,
                i < queue.len(),
                queue.len() <= m.dom().len(),
                queue@[i as int]@ == name@,
                seen.wf(),
                seen@.contains(name@),
                names::views(queue@).no_duplicates(),
                forall|g: Seq<char>| #[trigger] names::views(queue@).contains(g) <==> seen@.contains(g),
                forall|g: Seq<char>| #[trigger] seen@.contains(g) ==> m.contains_key(g) && below(m, rs, g),
                forall|g: Seq<char>| rs.contains(g) && m.contains_key(g) ==> #[trigger] seen@.contains(g),
                forall|k: int, c: Seq<char>|
                    0 <= k < i && #[trigger] m[names::views(queue@)[k]].groups.contains(c) && m.contains_key(c) ==> seen@.contains(c),
                forall|k: int| 0 <= k < j && m.contains_key(#[trigger] record.groups.order()[k]) ==> seen@.contains(
                    record.groups.order()[k],
                ),
            decreases n - j,
        {
            let child = record.groups.at(j).clone();
            if groups.contains(child.as_str()) && !seen.contains(child.as_str()) {
                let ghost was = queue@;
                proof {
                    child_is_below(m, rs, name@, child@);
                    pushed_view(queue@, child);
                }
                seen.insert(child.clone());
                queue.push(child);
                proof {
                    assert forall|k: int| 0 <= k < i implies names::views(queue@)[k] == names::views(was)[k] by {}
                    room_left(m, names::views(queue@));
                }
            }
            j = j + 1;
        }
        proof {
            record.groups.order_is_members();
            assert forall|c: Seq<char>| #[trigger] m[name@].groups.contains(c) && m.contains_key(c) implies seen@.contains(c) by {
                assert(record.groups.order().contains(c));
                let k = choose|k: int| 0 <= k < record.groups.order().len() && record.groups.order()[k] == c;
                assert(m.contains_key(record.groups.order()[k]));
            }
            assert(names::views(queue@)[i as int] == name@);
        }
        i = i + 1;
    }
    proof {
        assert forall|g: Seq<char>, c: Seq<char>| #[trigger] seen@.contains(g) && #[trigger] m[g].groups.contains(c) && m.contains_key(c)
            implies seen@.contains(c) by {
            assert(names::views(queue@).contains(g));
            let j = choose|j: int| 0 <= j < names::views(queue@).len() && names::views(queue@)[j] == g;
            assert(m[names::views(queue@)[j]].groups.contains(c));
        }
        assert forall|g: Seq<char>| #[trigger] names::views(queue@).contains(g) <==> below(m, rs, g) by {
            if below(m, rs, g) {
                let p = choose|p: Seq<Seq<char>>| is_chain(m, p) && rs.contains(p[0]) && #[trigger] p.last() == g;
                closed_holds_all(m, rs, seen@, p);
            }
        }
    }
    queue
}

/// The views of names with one more name at the end.
pub proof fn pushed_view(names: Seq<String>, name: String)
    ensures
        names::views(names.push(name)) == names::views(names).push(name@),
        forall|g: Seq<char>| #[trigger] names::views(names.push(name)).contains(g) <==> names::views(names).contains(g) || g == name@,
        names::views(names).no_duplicates() && !names::views(names).contains(name@) ==> names::views(names.push(name)).no_duplicates(),
{
    assert(names::views(names.push(name)) =~= names::views(names).push(name@));
    let v = names::views(names);
    assert forall|g: Seq<char>| #[trigger] names::views(names.push(name)).contains(g) <==> v.contains(g) || g == name@ by {
        if v.contains(g) {
            let j = choose|j: int| 0 <= j < v.len() && v[j] == g;
            assert(v.push(name@)[j] == g);
        }
        assert(v.push(name@)[v.len() as int] == name@);
    }
}

proof fn room_left(m: Map<Seq<char>, GroupView>, names: Seq<Seq<char>>)
    requires
        m.dom().finite(),
        names.no_duplicates(),
        forall|g: Seq<char>| #[trigger] names.contains(g) ==> m.contains_key(g),
    ensures
        names.len() <= m.dom().len(),
{
    names.unique_seq_to_set();
    assert(names.to_set().subset_of(m.dom())) by {
        assert forall|g: Seq<char>| names.to_set().contains(g) implies m.dom().contains(g) by {
            assert(names.contains(g));
        }
    }
    vstd::set_lib::lemma_len_subset(names.to_set(), m.dom());
}

/// Every context that the groups in `roots` address; a name that is no group
/// adds nothing.
pub fn context_closure(groups: &NameMap<GroupRecord>, roots: &Vec<String>) -> (res: NameSet)
    requires
        groups_wf(*groups),
    ensures
        res.wf(),
        res@ == addressed(group_map(*groups), names::views(roots@).to_set()),
{
    let ghost m = group_map(*groups);
    let ghost rs = names::views(roots@).to_set();
    let walked = walk_below(groups, roots);
    let mut res = NameSet::new();
    let mut i: usize = 0;
    while i < walked.len()
        invariant
            groups_wf(*groups),
            m == group_map(*groups),
            i <= walked.len(),
            res.wf(),
            forall|g: Seq<char>| #[trigger] names::views(walked@).contains(g) <==> below(m, rs, g),
            forall|c: Seq<char>| #[trigger]
                res@.contains(c) <==> exists|j: int| 0 <= j < i && #[trigger] m[names::views(walked@)[j]].contexts.contains(c),
        decreases walked.len() - i,
    {
        let name = &walked[i];
        assert(names::views(walked@)[i as int] == name@);
        assert(names::views(walked@).contains(name@));
        proof {
            let p = choose|p: Seq<Seq<char>>| is_chain(m, p) && rs.contains(p[0]) && #[trigger] p.last() == name@;
            assert(m.contains_key(p[p.len() - 1]));
        }
        match groups.get(name.as_str()) {
            Some(record) => {
                let ghost was = res@;
                add_all(&mut res, &record.contexts);
                proof {
                    assert(m[name@] == record@);
                    assert forall|c: Seq<char>| #[trigger]
                        res@.contains(c) <==> exists|j: int|
                            0 <= j < i + 1 && #[trigger] m[names::views(walked@)[j]].contexts.contains(c) by {
                        if was.contains(c) {
                            let j = choose|j: int| 0 <= j < i && #[trigger] m[names::views(walked@)[j]].contexts.contains(c);
                            assert(m[names::views(walked@)[j]].contexts.contains(c));
                        }
                        if record.contexts@.contains(c) {
                            assert(m[names::views(walked@)[i as int]].contexts.contains(c));
                        }
                    }
                }
            },
            None => {},
        }
        i = i + 1;
    }
    proof {
        assert forall|c: Seq<char>| res@.contains(c) <==> addressed(m, rs).contains(c) by {
            if res@.contains(c) {
                let j = choose|j: int| 0 <= j < walked.len() && #[trigger] m[names::views(walked@)[j]].contexts.contains(c);
                assert(names::views(walked@).contains(names::views(walked@)[j]));
                assert(below(m, rs, names::views(walked@)[j]));
            }
            if addressed(m, rs).contains(c) {
                let g = choose|g: Seq<char>| below(m, rs, g) && #[trigger] m[g].contexts.contains(c);
                assert(names::views(walked@).contains(g));
                let j = choose|j: int| 0 <= j < names::views(walked@).len() && names::views(walked@)[j] == g;
                assert(m[names::views(walked@)[j]].contexts.contains(c));
            }
        }
        assert(res@ =~= addressed(m, rs));
    }
    res
}

/// Puts every name of `b` into `a`.
pub fn add_all(a: &mut NameSet, b: &NameSet)
    requires
        old(a).wf(),
        b.wf(),
    ensures
        final(a).wf(),
        final(a)@ == old(a)@.union(b@),
{
    let n: usize = b.len();
    let mut i: usize = 0;
    while i < n
        invariant
            a.wf(),
            b.wf(),
            n == b.order().len(),
            i <= n,
            forall|c: Seq<char>| #[trigger] a@.contains(c) <==> old(a)@.contains(c) || b.order().take(i as int).contains(c),
        decreases n - i,
    {
        let name = b.at(i).clone();
        a.insert(name);
        proof {
            taken_one_more(b.order(), i as int);
        }
        i = i + 1;
    }
    proof {
        assert(b.order().take(n as int) =~= b.order());
        b.order_is_members();
        assert(a@ =~= old(a)@.union(b@));
    }
}

/// Takes every name of `b` out of `a`.
pub fn remove_all(a: &mut NameSet, b: &NameSet)
    requires
        old(a).wf(),
        b.wf(),
    ensures
        final(a).wf(),
        final(a)@ == old(a)@.difference(b@),
{
    let n: usize = b.len();
    let mut i: usize = 0;
    while i < n
        invariant
            a.wf(),
            b.wf(),
            n == b.order().len(),
            i <= n,
            forall|c: Seq<char>| #[trigger] a@.contains(c) <==> old(a)@.contains(c) && !b.order().take(i as int).contains(c),
        decreases n - i,
    {
        a.remove(b.at(i).as_str());
        proof {
            taken_one_more(b.order(), i as int);
        }
        i = i + 1;
    }
    proof {
        assert(b.order().take(n as int) =~= b.order());
        b.order_is_members();
        assert(a@ =~= old(a)@.difference(b@));
    }
}

pub proof fn taken_one_more(s: Seq<Seq<char>>, i: int)
    requires
        0 <= i < s.len(),
    ensures
        forall|c: Seq<char>| #[trigger] s.take(i + 1).contains(c) <==> s.take(i).contains(c) || c == s[i],
{
    let t = s.take(i);
    assert(s.take(i + 1) =~= t.push(s[i]));
    assert forall|c: Seq<char>| #[trigger] s.take(i + 1).contains(c) <==> t.contains(c) || c == s[i] by {
        if t.contains(c) {
            let j = choose|j: int| 0 <= j < t.len() && t[j] == c;
            assert(s.take(i + 1)[j] == c);
        }
        assert(s.take(i + 1)[i] == s[i]);
    }
}

/// The groups with one more edge, if the nesting still fits; else unchanged.
pub open spec fn with_edge(m: Map<Seq<char>, GroupView>, parent: Seq<char>, child: Seq<char>) -> Map<Seq<char>, GroupView> {
    let tried = m.insert(parent, GroupView { groups: m[parent].groups.insert(child), ..m[parent] });
    if nesting_fits(tried) {
        tried
    } else {
        m
    }
}

/// The groups after each of `children` was tried as a child of `parent`, in
/// turn.
pub open spec fn with_children(
    m: Map<Seq<char>, GroupView>,
    parent: Seq<char>,
    children: Seq<Seq<char>>,
) -> Map<Seq<char>, GroupView>
    decreases children.len(),
{
    if children.len() == 0 {
        m
    } else {
        with_edge(with_children(m, parent, children.drop_last()), parent, children.last())
    }
}

/// The groups after the children of each of `parents` in `full` were tried,
/// in turn.
pub open spec fn with_edges_of(
    m: Map<Seq<char>, GroupView>,
    full: Map<Seq<char>, GroupView>,
    parents: Seq<Seq<char>>,
) -> Map<Seq<char>, GroupView>
    decreases parents.len(),
{
    if parents.len() == 0 {
        m
    } else {
        let p = parents.last();
        with_children(with_edges_of(m, full, parents.drop_last()), p, names::in_order(full[p].groups))
    }
}

/// The groups with no nesting at all.
pub open spec fn flattened(m: Map<Seq<char>, GroupView>) -> Map<Seq<char>, GroupView> {
    m.map_values(|v: GroupView| GroupView { groups: Set::empty(), ..v })
}

/// What [`repair_nesting`] leaves: every edge of the old nesting tried in
/// name order, parent by parent and child by child, and kept where the
/// nesting still fits.
pub open spec fn repaired(m: Map<Seq<char>, GroupView>) -> Map<Seq<char>, GroupView> {
    with_edges_of(flattened(m), m, names::in_order(m.dom()))
}

/// Drops the edges that a nesting cannot keep, the later in name order
/// first.
pub fn repair_nesting(groups: NameMap<GroupRecord>) -> (res: NameMap<GroupRecord>)
    requires
        groups_wf(groups),
    ensures
        groups_wf(res),
        group_map(res) == repaired(group_map(groups)),
{
    let ghost m = group_map(groups);
    let n: usize = groups.len();
    let mut res: NameMap<GroupRecord> = NameMap::new();
    let mut i: usize = 0;
    proof {
        groups.order_is_domain();
        assert(m.dom() =~= groups@.dom());
    }
    while i < n
        invariant
            groups_wf(groups),
            m == group_map(groups),
            n == groups.order().len(),
            i <= n,
            groups_wf(res),
            forall|k: Seq<char>| #[trigger] res@.contains_key(k) <==> groups.order().take(i as int).contains(k),
            forall|k: Seq<char>| #[trigger] res@.contains_key(k) ==> res@[k]@ == flattened(m)[k],
        decreases n - i,
    {
        let name = groups.key_at(i).clone();
        let record = groups.value_at(i);
        res.insert(
            name,
            GroupRecord {
                description: record.description.clone(),
                contexts: record.contexts.copy(),
                groups: NameSet::new(),
            },
        );
        proof {
            taken_one_more(groups.order(), i as int);
            assert(m[name@] == record@);
            assert(res@[name@]@ =~= flattened(m)[name@]);
        }
        i = i + 1;
    }
    proof {
        assert(groups.order().take(n as int) =~= groups.order());
        assert(group_map(res) =~= flattened(m));
        assert(groups.order().take(0) =~= Seq::empty());
    }
    let mut i: usize = 0;
    while i < n
        invariant
            groups_wf(groups),
            m == group_map(groups),
            n == groups.order().len(),
            i <= n,
            groups_wf(res),
            res@.dom() == groups@.dom(),
            group_map(res) == with_edges_of(flattened(m), m, groups.order().take(i as int)),
        decreases n - i,
    {
        let name = groups.key_at(i).clone();
        let record = groups.value_at(i);
        let ghost base = group_map(res);
        let c: usize = record.groups.len();
        let mut j: usize = 0;
        assert(record.groups.order().take(0) =~= Seq::empty());
        while j < c
            invariant
                groups_wf(res),
                record.wf(),
                c == record.groups.order().len(),
                j <= c,
                res@.contains_key(name@),
                res@.dom() == groups@.dom(),
                group_map(res) == with_children(base, name@, record.groups.order().take(j as int)),
            decreases c - j,
        {
            let child = record.groups.at(j).clone();
            let ghost was = res;
            let mut fresh = false;
            match res.get_mut(name.as_str()) {
                Some(r) => {
                    fresh = r.groups.insert(child.clone());
                },
                None => {},
            }
            let ghost mid = res;
            assert(group_map(mid) =~= group_map(was).insert(
                name@,
                GroupView { groups: group_map(was)[name@].groups.insert(child@), ..group_map(was)[name@] },
            ));
            let fits = validate_nesting(&res).is_ok();
            if !fits && fresh {
                match res.get_mut(name.as_str()) {
                    Some(r) => {
                        r.groups.remove(child.as_str());
                    },
                    None => {},
                }
            }
            proof {
                if !fits {
                    if fresh {
                        assert(group_map(was)[name@].groups.insert(child@).remove(child@) =~= group_map(was)[name@].groups);
                        assert(res@[name@]@ =~= was@[name@]@);
                    } else {
                        assert(group_map(was)[name@].groups.insert(child@) =~= group_map(was)[name@].groups);
                    }
                    assert(group_map(res) =~= group_map(was));
                }
                let t = record.groups.order().take(j + 1);
                assert(t.drop_last() =~= record.groups.order().take(j as int));
                assert(t.last() == child@);
                assert(res@.dom() =~= was@.dom());
            }
            j = j + 1;
        }
        proof {
            assert(record.groups.order().take(c as int) =~= record.groups.order());
            record.groups.order_is_members();
            let t = groups.order().take(i + 1);
            assert(t.drop_last() =~= groups.order().take(i as int));
            assert(t.last() == name@);
            assert(m[name@] == record@);
        }
        i = i + 1;
    }
    proof {
        assert(groups.order().take(n as int) =~= groups.order());
    }
    res
}

proof fn kept_edges_fit(m: Map<Seq<char>, GroupView>, parent: Seq<char>, children: Seq<Seq<char>>)
    requires
        nesting_fits(m),
    ensures
        nesting_fits(with_children(m, parent, children)),
    decreases children.len(),
{
    if children.len() > 0 {
        kept_edges_fit(m, parent, children.drop_last());
    }
}

proof fn all_kept_edges_fit(m: Map<Seq<char>, GroupView>, full: Map<Seq<char>, GroupView>, parents: Seq<Seq<char>>)
    requires
        nesting_fits(m),
    ensures
        nesting_fits(with_edges_of(m, full, parents)),
    decreases parents.len(),
{
    if parents.len() > 0 {
        all_kept_edges_fit(m, full, parents.drop_last());
        kept_edges_fit(
            with_edges_of(m, full, parents.drop_last()),
            parents.last(),
            names::in_order(full[parents.last()].groups),
        );
    }
}

/// A repaired nesting fits, whatever it was repaired from.
pub proof fn repaired_nesting_fits(m: Map<Seq<char>, GroupView>)
    ensures
        nesting_fits(repaired(m)),
{
    let f = flattened(m);
    assert forall|n: Seq<char>| !#[trigger] heads_chain(f, n, (MAX_GROUP_DEPTH + 1) as nat) by {
        if heads_chain(f, n, (MAX_GROUP_DEPTH + 1) as nat) {
            let c = choose|c: Seq<char>| #[trigger] f[n].groups.contains(c) && heads_chain(f, c, MAX_GROUP_DEPTH as nat);
        }
    }
    all_kept_edges_fit(f, m, names::in_order(m.dom()));
}

/// `after` has the groups of `before`, each with its description and its
/// contexts, and no child that `full` does not give it.
pub open spec fn keeps_to(after: Map<Seq<char>, GroupView>, before: Map<Seq<char>, GroupView>, full: Map<Seq<char>, GroupView>) -> bool {
    &&& after.dom() == before.dom()
    &&& forall|n: Seq<char>| #[trigger] after.contains_key(n) ==> {
        &&& after[n].description == before[n].description
        &&& after[n].contexts == before[n].contexts
        &&& after[n].groups.subset_of(full[n].groups)
    }
}

proof fn children_keep_to(m: Map<Seq<char>, GroupView>, full: Map<Seq<char>, GroupView>, parent: Seq<char>, children: Seq<Seq<char>>)
    requires
        keeps_to(m, m, full),
        m.contains_key(parent),
        forall|i: int| 0 <= i < children.len() ==> full[parent].groups.contains(#[trigger] children[i]),
    ensures
        keeps_to(with_children(m, parent, children), m, full),
    decreases children.len(),
{
    if children.len() > 0 {
        let rest = children.drop_last();
        assert forall|i: int| 0 <= i < rest.len() implies full[parent].groups.contains(#[trigger] rest[i]) by {
            assert(rest[i] == children[i]);
        }
        children_keep_to(m, full, parent, rest);
        let w = with_children(m, parent, rest);
        let tried = w.insert(parent, GroupView { groups: w[parent].groups.insert(children.last()), ..w[parent] });
        assert(w.contains_key(parent));
        assert(tried.dom() =~= w.dom());
        assert(full[parent].groups.contains(children[children.len() - 1]));
    }
}

proof fn edges_keep_to(m: Map<Seq<char>, GroupView>, full: Map<Seq<char>, GroupView>, parents: Seq<Seq<char>>)
    requires
        keeps_to(m, m, full),
        m.dom() == full.dom(),
        forall|i: int| 0 <= i < parents.len() ==> full.contains_key(#[trigger] parents[i]),
        forall|n: Seq<char>| #[trigger] full.contains_key(n) ==> full[n].groups.finite(),
    ensures
        keeps_to(with_edges_of(m, full, parents), m, full),
    decreases parents.len(),
{
    if parents.len() > 0 {
        let rest = parents.drop_last();
        assert forall|i: int| 0 <= i < rest.len() implies full.contains_key(#[trigger] rest[i]) by {
            assert(rest[i] == parents[i]);
        }
        edges_keep_to(m, full, rest);
        let w = with_edges_of(m, full, rest);
        let p = parents.last();
        assert(full.contains_key(parents[parents.len() - 1]));
        let children = names::in_order(full[p].groups);
        names::in_order_of_finite(full[p].groups);
        assert forall|i: int| 0 <= i < children.len() implies full[p].groups.contains(#[trigger] children[i]) by {
            assert(children.to_set().contains(children[i]));
        }
        assert(keeps_to(w, w, full));
        children_keep_to(w, full, p, children);
    }
}

/// A repair takes edges away and nothing else: the groups, their
/// descriptions and their contexts stay, and no child is new.
pub proof fn repair_only_drops_edges(m: Map<Seq<char>, GroupView>)
    requires
        m.dom().finite(),
        forall|n: Seq<char>| #[trigger] m.contains_key(n) ==> m[n].groups.finite(),
    ensures
        keeps_to(repaired(m), m, m),
{
    let f = flattened(m);
    let parents = names::in_order(m.dom());
    names::in_order_of_finite(m.dom());
    assert(f.dom() =~= m.dom());
    assert forall|i: int| 0 <= i < parents.len() implies m.contains_key(#[trigger] parents[i]) by {
        assert(parents.to_set().contains(parents[i]));
    }
    assert(keeps_to(f, f, m));
    edges_keep_to(f, m, parents);
    assert forall|n: Seq<char>| #[trigger] repaired(m).contains_key(n) implies {
        &&& repaired(m)[n].description == m[n].description
        &&& repaired(m)[n].contexts == m[n].contexts
        &&& repaired(m)[n].groups.subset_of(m[n].groups)
    } by {
        assert(f.contains_key(n));
    }
}

/// `small` names no group and no child that `large` does not.
pub open spec fn nested_within(small: Map<Seq<char>, GroupView>, large: Map<Seq<char>, GroupView>) -> bool {
    forall|n: Seq<char>| #[trigger]
        small.contains_key(n) ==> large.contains_key(n) && small[n].groups.subset_of(large[n].groups)
}

/// A chain of the smaller nesting is a chain of the larger one.
pub proof fn chain_in_larger(small: Map<Seq<char>, GroupView>, large: Map<Seq<char>, GroupView>, n: Seq<char>, k: nat)
    requires
        nested_within(small, large),
        heads_chain(small, n, k),
    ensures
        heads_chain(large, n, k),
    decreases k,
{
    if k >= 2 {
        let c = choose|c: Seq<char>| #[trigger] small[n].groups.contains(c) && heads_chain(small, c, (k - 1) as nat);
        assert(small.contains_key(n));
        chain_in_larger(small, large, c, (k - 1) as nat);
        assert(large[n].groups.contains(c));
    } else if k == 1 {
        assert(small.contains_key(n));
    }
}

/// A nesting with fewer groups or children fits where the larger one did.
pub proof fn smaller_nesting_fits(small: Map<Seq<char>, GroupView>, large: Map<Seq<char>, GroupView>)
    requires
        nested_within(small, large),
        nesting_fits(large),
    ensures
        nesting_fits(small),
{
    assert forall|n: Seq<char>| !#[trigger] heads_chain(small, n, (MAX_GROUP_DEPTH + 1) as nat) by {
        if heads_chain(small, n, (MAX_GROUP_DEPTH + 1) as nat) {
            chain_in_larger(small, large, n, (MAX_GROUP_DEPTH + 1) as nat);
        }
    }
}

proof fn children_all_land(m: Map<Seq<char>, GroupView>, full: Map<Seq<char>, GroupView>, parent: Seq<char>, children: Seq<Seq<char>>)
    requires
        nesting_fits(full),
        m.dom() == full.dom(),
        keeps_to(m, m, full),
        m.contains_key(parent),
        forall|i: int| 0 <= i < children.len() ==> full[parent].groups.contains(#[trigger] children[i]),
    ensures
        forall|i: int| 0 <= i < children.len() ==> with_children(m, parent, children)[parent].groups.contains(#[trigger] children[i]),
        forall|n: Seq<char>| #[trigger] m.contains_key(n) ==> m[n].groups.subset_of(with_children(m, parent, children)[n].groups),
    decreases children.len(),
{
    if children.len() > 0 {
        let rest = children.drop_last();
        assert forall|i: int| 0 <= i < rest.len() implies full[parent].groups.contains(#[trigger] rest[i]) by {
            assert(rest[i] == children[i]);
        }
        children_all_land(m, full, parent, rest);
        children_keep_to(m, full, parent, rest);
        let w = with_children(m, parent, rest);
        let child = children.last();
        assert(full[parent].groups.contains(children[children.len() - 1]));
        let tried = w.insert(parent, GroupView { groups: w[parent].groups.insert(child), ..w[parent] });
        assert(w.contains_key(parent));
        assert(nested_within(tried, full));
        smaller_nesting_fits(tried, full);
        assert(with_children(m, parent, children) == tried);
        assert forall|i: int| 0 <= i < children.len() implies tried[parent].groups.contains(#[trigger] children[i]) by {
            if i < rest.len() {
                assert(rest[i] == children[i]);
            }
        }
    }
}

proof fn edges_all_land(m: Map<Seq<char>, GroupView>, full: Map<Seq<char>, GroupView>, parents: Seq<Seq<char>>)
    requires
        nesting_fits(full),
        keeps_to(m, m, full),
        m.dom() == full.dom(),
        forall|i: int| 0 <= i < parents.len() ==> full.contains_key(#[trigger] parents[i]),
        forall|n: Seq<char>| #[trigger] full.contains_key(n) ==> full[n].groups.finite(),
    ensures
        forall|i: int|
            0 <= i < parents.len() ==> full[#[trigger] parents[i]].groups.subset_of(
                with_edges_of(m, full, parents)[parents[i]].groups,
            ),
    decreases parents.len(),
{
    if parents.len() > 0 {
        let rest = parents.drop_last();
        assert forall|i: int| 0 <= i < rest.len() implies full.contains_key(#[trigger] rest[i]) by {
            assert(rest[i] == parents[i]);
        }
        edges_all_land(m, full, rest);
        edges_keep_to(m, full, rest);
        let w = with_edges_of(m, full, rest);
        let p = parents.last();
        assert(full.contains_key(parents[parents.len() - 1]));
        let children = names::in_order(full[p].groups);
        names::in_order_of_finite(full[p].groups);
        assert forall|i: int| 0 <= i < children.len() implies full[p].groups.contains(#[trigger] children[i]) by {
            assert(children.to_set().contains(children[i]));
        }
        assert(keeps_to(w, w, full));
        children_all_land(w, full, p, children);
        let done = with_edges_of(m, full, parents);
        assert(done == with_children(w, p, children));
        assert forall|c: Seq<char>| full[p].groups.contains(c) implies done[p].groups.contains(c) by {
            assert(children.to_set().contains(c));
            let i = choose|i: int| 0 <= i < children.len() && children[i] == c;
            assert(done[p].groups.contains(children[i]));
        }
        assert forall|i: int| 0 <= i < parents.len() implies full[#[trigger] parents[i]].groups.subset_of(
            done[parents[i]].groups,
        ) by {
            if i < rest.len() {
                assert(rest[i] == parents[i]);
                assert(w.contains_key(parents[i]));
            }
        }
    }
}

/// A repair leaves a nesting that fits as it is.
pub proof fn fitting_nesting_is_left_alone(m: Map<Seq<char>, GroupView>)
    requires
        nesting_fits(m),
        m.dom().finite(),
        forall|n: Seq<char>| #[trigger] m.contains_key(n) ==> m[n].groups.finite(),
    ensures
        repaired(m) == m,
{
    let f = flattened(m);
    let parents = names::in_order(m.dom());
    names::in_order_of_finite(m.dom());
    assert(f.dom() =~= m.dom());
    assert forall|i: int| 0 <= i < parents.len() implies m.contains_key(#[trigger] parents[i]) by {
        assert(parents.to_set().contains(parents[i]));
    }
    assert(keeps_to(f, f, m));
    edges_all_land(f, m, parents);
    repair_only_drops_edges(m);
    let r = repaired(m);
    assert forall|n: Seq<char>| #[trigger] r.contains_key(n) implies r[n] == m[n] by {
        assert(parents.to_set().contains(n));
        let i = choose|i: int| 0 <= i < parents.len() && parents[i] == n;
        assert(m[parents[i]].groups.subset_of(r[parents[i]].groups));
        assert(r[n].groups =~= m[n].groups);
        assert(r[n] =~= m[n]);
    }
    assert(r =~= m);
}

/// How many groups the longest chain from a group has: 1, 2 or 3, in a
/// nesting that fits.
pub fn nesting_depth(groups: &NameMap<GroupRecord>, name: &str) -> (res: u64)
    requires
        groups_wf(*groups),
    ensures
        res == depth(group_map(*groups), name@),
{
    let three = chain_heads(groups, 2);
    let two = chain_heads(groups, 1);
    assert(three@.contains(name@) == heads_chain(group_map(*groups), name@, 3));
    assert(two@.contains(name@) == heads_chain(group_map(*groups), name@, 2));
    if three.contains(name) {
        3
    } else if two.contains(name) {
        2
    } else {
        1
    }
}

/// A child is nested less deep than its parent.
pub proof fn child_is_shallower(m: Map<Seq<char>, GroupView>, parent: Seq<char>, child: Seq<char>)
    requires
        nesting_fits(m),
        m.contains_key(parent),
        m.contains_key(child),
        m[parent].groups.contains(child),
    ensures
        depth(m, child) < depth(m, parent),
{
    let d = depth(m, child);
    assert(heads_chain(m, child, d));
    assert(heads_chain(m, parent, d + 1));
    if d == 3 {
        assert(heads_chain(m, parent, (MAX_GROUP_DEPTH + 1) as nat));
    } else if d + 1 == 2 {
        assert(heads_chain(m, parent, 2));
    }
}

/// The first name of `names`, in name order, that `have` does not hold.
pub open spec fn first_missing_is(names: Set<Seq<char>>, have: Set<Seq<char>>, missing: Seq<char>) -> bool {
    first_such(missing, |o: Seq<char>| names.contains(o) && !have.contains(o))
}

/// The first of `names` that the map does not hold, if any.
pub fn first_missing<V>(wanted: &NameSet, have: &NameMap<V>) -> (res: Option<String>)
    requires
        wanted.wf(),
        have.wf(),
    ensures
        match res {
            Some(m) => first_missing_is(wanted@, have@.dom(), m@),
            None => wanted@.subset_of(have@.dom()),
        },
{
    let n: usize = wanted.len();
    let mut i: usize = 0;
    proof {
        wanted.order_is_members();
    }
    while i < n
        invariant
            wanted.wf(),
            have.wf(),
            n == wanted.order().len(),
            i <= n,
            forall|j: int| 0 <= j < i ==> have@.contains_key(#[trigger] wanted.order()[j]),
        decreases n - i,
    {
        let name = wanted.at(i);
        if !have.contains(name.as_str()) {
            proof {
                wanted.order_is_members();
                let p = |o: Seq<char>| wanted@.contains(o) && !have@.dom().contains(o);
                assert(p(name@));
                assert forall|o: Seq<char>| #[trigger] p(o) implies !names::before(o, name@) by {
                    assert(wanted.order().contains(o));
                    let j = choose|j: int| 0 <= j < wanted.order().len() && wanted.order()[j] == o;
                    names::before_irreflexive(o);
                    if j > i && names::before(o, name@) {
                        assert(names::before(wanted.order()[i as int], wanted.order()[j]));
                        names::before_transitive(o, name@, o);
                    }
                }
            }
            return Some(name.clone());
        }
        i = i + 1;
    }
    proof {
        wanted.order_is_members();
        assert forall|o: Seq<char>| wanted@.contains(o) implies have@.dom().contains(o) by {
            assert(wanted.order().contains(o));
        }
    }
    None
}

/// A map with the same groups.
pub fn copy_groups(groups: &NameMap<GroupRecord>) -> (res: NameMap<GroupRecord>)
    requires
        groups_wf(*groups),
    ensures
        groups_wf(res),
        group_map(res) == group_map(*groups),
        res@.dom() == groups@.dom(),
{
    let n: usize = groups.len();
    let mut res: NameMap<GroupRecord> = NameMap::new();
    let mut i: usize = 0;
    while i < n
        invariant
            groups_wf(*groups),
            n == groups.order().len(),
            i <= n,
            groups_wf(res),
            forall|k: Seq<char>| #[trigger] res@.contains_key(k) <==> groups.order().take(i as int).contains(k),
            forall|k: Seq<char>| #[trigger] res@.contains_key(k) ==> groups@.contains_key(k) && res@[k]@ == groups@[k]@,
        decreases n - i,
    {
        let name = groups.key_at(i).clone();
        let record = groups.value_at(i).copy();
        res.insert(name, record);
        proof {
            taken_one_more(groups.order(), i as int);
        }
        i = i + 1;
    }
    proof {
        assert(groups.order().take(n as int) =~= groups.order());
        groups.order_is_domain();
        assert(res@.dom() =~= groups@.dom());
        assert(group_map(res) =~= group_map(*groups));
    }
    res
}

/// What a record says once `from` gave way to `to`, or just went, among its
/// children or among its members.
pub open spec fn rewritten(v: GroupView, from: Seq<char>, to: Option<Seq<char>>, children: bool) -> GroupView {
    if children {
        GroupView { groups: replaced_in(v.groups, from, to), ..v }
    } else {
        GroupView { contexts: replaced_in(v.contexts, from, to), ..v }
    }
}

pub open spec fn replaced_in(s: Set<Seq<char>>, from: Seq<char>, to: Option<Seq<char>>) -> Set<Seq<char>> {
    if s.contains(from) {
        match to {
            Some(t) => s.remove(from).insert(t),
            None => s.remove(from),
        }
    } else {
        s
    }
}

/// A record names `name` among its children or among its members.
pub open spec fn names_it(v: GroupView, name: Seq<char>, children: bool) -> bool {
    if children {
        v.groups.contains(name)
    } else {
        v.contexts.contains(name)
    }
}

/// Every group after `from` gave way to `to`, or just went.
pub open spec fn all_rewritten(
    m: Map<Seq<char>, GroupView>,
    from: Seq<char>,
    to: Option<Seq<char>>,
    children: bool,
) -> Map<Seq<char>, GroupView> {
    m.map_values(|v: GroupView| rewritten(v, from, to, children))
}

/// Replaces `from` by `to`, or just drops it, among the children or among
/// the members of every group. Returns the groups it touched, ascending:
/// those are to be persisted.
pub fn rewrite_membership(
    groups: &mut NameMap<GroupRecord>,
    from: &str,
    to: Option<&str>,
    children: bool,
) -> (touched: Vec<String>)
    requires
        groups_wf(*old(groups)),
    ensures
        groups_wf(*final(groups)),
        final(groups)@.dom() == old(groups)@.dom(),
        group_map(*final(groups)) == all_rewritten(
            group_map(*old(groups)),
            from@,
            names::opt_view(to),
            children,
        ),
        names::ascending(names::views(touched@)),
        forall|g: Seq<char>| #[trigger]
            names::views(touched@).contains(g) <==> group_map(*old(groups)).contains_key(g) && names_it(
                group_map(*old(groups))[g],
                from@,
                children,
            ),
{
    let ghost m = group_map(*groups);
    let ghost goal = names::opt_view(to);
    let ghost order = groups.order();
    let n: usize = groups.len();
    let mut touched: Vec<String> = Vec::new();
    let mut i: usize = 0;
    proof {
        groups.order_is_domain();
        assert(m.dom() =~= groups@.dom());
        assert(names::views(touched@) =~= Seq::empty());
    }
    while i < n
        invariant
            groups_wf(*groups),
            groups.order() == order,
            groups@.dom() == m.dom(),
            old(groups)@.dom() == m.dom(),
            names::ascending(order),
            forall|j: int| 0 <= j < order.len() ==> m.contains_key(#[trigger] order[j]),
            goal == names::opt_view(to),
            n == order.len(),
            i <= n,
            forall|j: int| 0 <= j < i ==> groups@[#[trigger] order[j]]@ == rewritten(m[order[j]], from@, goal, children),
            forall|j: int| i <= j < n ==> groups@[#[trigger] order[j]]@ == m[order[j]],
            names::ascending(names::views(touched@)),
            forall|k: int|
                0 <= k < touched.len() ==> exists|j: int| 0 <= j < i && #[trigger] order[j] == (#[trigger] touched@[k])@,
            forall|g: Seq<char>| #[trigger]
                names::views(touched@).contains(g) <==> order.take(i as int).contains(g) && names_it(m[g], from@, children),
        decreases n - i,
    {
        let name = groups.key_at(i).clone();
        assert(order[i as int] == name@);
        let ghost before = *groups;
        let record = groups.value_at_mut(i);
        assert(record@ == m[name@]);
        let hit = if children {
            record.groups.remove(from)
        } else {
            record.contexts.remove(from)
        };
        if hit {
            if let Some(t) = to {
                if children {
                    record.groups.insert(t.to_owned());
                } else {
                    record.contexts.insert(t.to_owned());
                }
            }
        }
        proof {
            assert(hit == names_it(m[name@], from@, children));
            if !hit {
                if children {
                    assert(m[name@].groups.remove(from@) =~= m[name@].groups);
                } else {
                    assert(m[name@].contexts.remove(from@) =~= m[name@].contexts);
                }
            }
            assert(record@ =~= rewritten(m[name@], from@, goal, children));
        }
        proof {
            taken_one_more(order, i as int);
            assert forall|j: int| 0 <= j < n && j != i implies #[trigger] order[j] != name@ by {
                names::before_irreflexive(name@);
                if j < i {
                    assert(names::before(order[j], order[i as int]));
                } else {
                    assert(names::before(order[i as int], order[j]));
                }
            }
            assert(groups@.dom() =~= m.dom());
        }
        if hit {
            let ghost was = names::views(touched@);
            proof {
                pushed_view(touched@, name);
                assert forall|a: int, b: int| 0 <= a < b < was.push(name@).len() implies names::before(
                    #[trigger] was.push(name@)[a],
                    #[trigger] was.push(name@)[b],
                ) by {
                    if b == was.len() {
                        let j = choose|j: int| 0 <= j < i && #[trigger] order[j] == touched@[a]@;
                        assert(names::before(order[j], order[i as int]));
                    } else {
                        assert(names::before(was[a], was[b]));
                    }
                }
            }
            let ghost held = touched@;
            touched.push(name);
            assert forall|k: int| 0 <= k < touched.len() implies exists|j: int|
                0 <= j < i + 1 && #[trigger] order[j] == (#[trigger] touched@[k])@ by {
                if k < held.len() {
                    let j = choose|j: int| 0 <= j < i && #[trigger] order[j] == held[k]@;
                    assert(order[j] == touched@[k]@);
                } else {
                    assert(order[i as int] == touched@[k]@);
                }
            }
        }
        i = i + 1;
    }
    proof {
        assert(order.take(n as int) =~= order);
        let goal_map = all_rewritten(m, from@, goal, children);
        assert forall|g: Seq<char>| goal_map.contains_key(g) implies group_map(*groups)[g] == goal_map[g] by {
            groups.order_is_domain();
            assert(order.contains(g));
            let j = choose|j: int| 0 <= j < order.len() && order[j] == g;
            assert(groups@[order[j]]@ == rewritten(m[order[j]], from@, goal, children));
        }
        assert(group_map(*groups) =~= goal_map);
        groups.order_is_domain();
    }
    touched
}

/// What `back` was called before the rename of `from` to `to`.
pub open spec fn name_before(n: Seq<char>, from: Seq<char>, to: Seq<char>) -> Seq<char> {
    if n == to {
        from
    } else {
        n
    }
}

/// Every group after `from` was renamed to `to`: its record moves and every
/// parent follows.
pub open spec fn renamed_group(m: Map<Seq<char>, GroupView>, from: Seq<char>, to: Seq<char>) -> Map<Seq<char>, GroupView> {
    all_rewritten(m.remove(from).insert(to, m[from]), from, Some(to), true)
}

proof fn renamed_chain(m: Map<Seq<char>, GroupView>, from: Seq<char>, to: Seq<char>, n: Seq<char>, k: nat)
    requires
        m.contains_key(from),
        !m.contains_key(to),
        forall|g: Seq<char>| m.contains_key(g) ==> !#[trigger] m[g].groups.contains(to),
        heads_chain(renamed_group(m, from, to), n, k),
    ensures
        heads_chain(m, name_before(n, from, to), k),
    decreases k,
{
    let r = renamed_group(m, from, to);
    let b = name_before(n, from, to);
    if k >= 1 {
        assert(r.contains_key(n));
        assert(m.contains_key(b));
    }
    if k >= 2 {
        let c = choose|c: Seq<char>| #[trigger] r[n].groups.contains(c) && heads_chain(r, c, (k - 1) as nat);
        renamed_chain(m, from, to, c, (k - 1) as nat);
        assert(r[n].groups == replaced_in(m[b].groups, from, Some(to)));
        assert(m[b].groups.contains(name_before(c, from, to)));
    }
}

/// A rename changes no chain's length.
pub proof fn renamed_nesting_fits(m: Map<Seq<char>, GroupView>, from: Seq<char>, to: Seq<char>)
    requires
        nesting_fits(m),
        m.contains_key(from),
        !m.contains_key(to),
        forall|g: Seq<char>| m.contains_key(g) ==> !#[trigger] m[g].groups.contains(to),
    ensures
        nesting_fits(renamed_group(m, from, to)),
{
    let r = renamed_group(m, from, to);
    assert forall|n: Seq<char>| !#[trigger] heads_chain(r, n, (MAX_GROUP_DEPTH + 1) as nat) by {
        if heads_chain(r, n, (MAX_GROUP_DEPTH + 1) as nat) {
            renamed_chain(m, from, to, n, (MAX_GROUP_DEPTH + 1) as nat);
        }
    }
}

/// Replacing a name, or dropping it, makes no set larger.
pub proof fn replaced_is_no_larger(s: Set<Seq<char>>, from: Seq<char>, to: Option<Seq<char>>)
    requires
        s.finite(),
    ensures
        replaced_in(s, from, to).finite(),
        replaced_in(s, from, to).len() <= s.len(),
{
}

proof fn chains_have_heads(m: Map<Seq<char>, GroupView>, p: Seq<Seq<char>>)
    requires
        is_chain(m, p),
    ensures
        heads_chain(m, p[0], p.len()),
    decreases p.len(),
{
    if p.len() > 1 {
        let rest = p.drop_first();
        assert forall|i: int| 0 <= i < rest.len() implies m.contains_key(#[trigger] rest[i]) by {
            assert(rest[i] == p[i + 1]);
        }
        assert forall|i: int, j: int| 0 <= i && j == i + 1 && j < rest.len() implies m[#[trigger] rest[i]].groups.contains(
            #[trigger] rest[j],
        ) by {
            assert(rest[i] == p[i + 1] && rest[j] == p[j + 1]);
        }
        chains_have_heads(m, rest);
        assert(m[p[0]].groups.contains(p[1]));
        assert(rest[0] == p[1]);
    } else {
        assert(m.contains_key(p[0]));
    }
}

/// A nesting fits exactly where no four groups stand one below the other.
/// What is returned is four such groups, where it does not.
pub proof fn nestings_are_three_deep(m: Map<Seq<char>, GroupView>, p: Seq<Seq<char>>) -> (deep: Seq<Seq<char>>)
    ensures
        nesting_fits(m) && p.len() == 4 && m.contains_key(p[0]) && m.contains_key(p[1]) && m.contains_key(p[2])
            && m.contains_key(p[3]) ==> !m[p[0]].groups.contains(p[1]) || !m[p[1]].groups.contains(p[2])
            || !m[p[2]].groups.contains(p[3]),
        !nesting_fits(m) ==> deep.len() == 4 && m.contains_key(deep[0]) && m.contains_key(deep[1]) && m.contains_key(
            deep[2],
        ) && m.contains_key(deep[3]) && m[deep[0]].groups.contains(deep[1]) && m[deep[1]].groups.contains(deep[2])
            && m[deep[2]].groups.contains(deep[3]),
{
    if nesting_fits(m) && p.len() == 4 && m.contains_key(p[0]) && m.contains_key(p[1]) && m.contains_key(p[2])
        && m.contains_key(p[3]) && m[p[0]].groups.contains(p[1]) && m[p[1]].groups.contains(p[2])
        && m[p[2]].groups.contains(p[3]) {
        assert(is_chain(m, p));
        chains_have_heads(m, p);
        assert(heads_chain(m, p[0], (MAX_GROUP_DEPTH + 1) as nat));
    }
    if nesting_fits(m) {
        p
    } else {
        let n = choose|n: Seq<char>| #[trigger] heads_chain(m, n, (MAX_GROUP_DEPTH + 1) as nat);
        let deep = written_out(m, n, (MAX_GROUP_DEPTH + 1) as nat);
        assert(m.contains_key(deep[0]) && m.contains_key(deep[1]) && m.contains_key(deep[2]) && m.contains_key(deep[3]));
        assert(m[deep[0]].groups.contains(deep[1]));
        assert(m[deep[1]].groups.contains(deep[2]));
        assert(m[deep[2]].groups.contains(deep[3]));
        deep
    }
}

/// A group's depth is one where it has no child that is a group, and else
/// one more than that of its deepest child.
pub proof fn depth_is_that_of_the_deepest_child(m: Map<Seq<char>, GroupView>, n: Seq<char>, c: Seq<char>)
    requires
        nesting_fits(m),
        m.contains_key(n),
    ensures
        (forall|d: Seq<char>| #[trigger] m[n].groups.contains(d) ==> !m.contains_key(d)) ==> depth(m, n) == 1,
        m[n].groups.contains(c) && m.contains_key(c) ==> depth(m, n) >= depth(m, c) + 1,
        (exists|d: Seq<char>| #[trigger] m[n].groups.contains(d) && m.contains_key(d)) ==> exists|d: Seq<char>| #[trigger]
            m[n].groups.contains(d) && m.contains_key(d) && depth(m, n) == depth(m, d) + 1,
{
    if m[n].groups.contains(c) && m.contains_key(c) {
        child_is_shallower(m, n, c);
    }
    if heads_chain(m, n, 3) {
        let d = choose|d: Seq<char>| #[trigger] m[n].groups.contains(d) && heads_chain(m, d, 2);
        child_is_shallower(m, n, d);
        assert(m.contains_key(d));
    } else if heads_chain(m, n, 2) {
        let d = choose|d: Seq<char>| #[trigger] m[n].groups.contains(d) && heads_chain(m, d, 1);
        child_is_shallower(m, n, d);
        assert(m.contains_key(d));
    } else {
        assert forall|d: Seq<char>| #[trigger] m[n].groups.contains(d) implies !m.contains_key(d) by {
            if m.contains_key(d) {
                assert(heads_chain(m, d, 1));
                assert(heads_chain(m, n, 2));
            }
        }
    }
}

/// What a verdict says is so: a nesting that is let through fits; one that
/// has a cycle is reported by a group on or above one, and any other that
/// does not fit by a group that heads four. The group is the first such in
/// name order.
pub proof fn verdicts_say_what_is_wrong(m: Map<Seq<char>, GroupView>, verdict: Result<(), NestingViolation>, o: Seq<char>)
    requires
        m.dom().finite(),
        nesting_verdict(m, verdict),
    ensures
        verdict is Ok <==> nesting_fits(m),
        verdict matches Err(NestingViolation::Cycle(_)) ==> has_cycle(m),
        verdict matches Err(NestingViolation::TooDeep(_)) ==> !has_cycle(m),
        verdict matches Err(NestingViolation::Cycle(n)) ==> heads_endless_chain(m, n@) && (heads_endless_chain(m, o)
            ==> !names::before(o, n@)),
        verdict matches Err(NestingViolation::TooDeep(n)) ==> heads_chain(m, n@, 4) && (heads_chain(m, o, 4) ==> !names::before(
            o,
            n@,
        )),
{
    cycle_iff_endless(m);
    match verdict {
        Ok(_) => {},
        Err(NestingViolation::Cycle(n)) => {
            let p = |x: Seq<char>| heads_endless_chain(m, x);
            assert(p(n@));
            assert(heads_chain(m, n@, (MAX_GROUP_DEPTH + 1) as nat));
            assert(p(o) == heads_endless_chain(m, o));
        },
        Err(NestingViolation::TooDeep(n)) => {
            let p = |x: Seq<char>| heads_chain(m, x, (MAX_GROUP_DEPTH + 1) as nat);
            assert(p(n@));
            assert(p(o) == heads_chain(m, o, 4));
        },
    }
}

/// Groups address their own members, and whatever their children address;
/// and nothing else.
pub proof fn groups_address_members_and_children(
    m: Map<Seq<char>, GroupView>,
    roots: Set<Seq<char>>,
    g: Seq<char>,
    child: Seq<char>,
    c: Seq<char>,
)
    ensures
        roots.contains(g) && m.contains_key(g) && m[g].contexts.contains(c) ==> addressed(m, roots).contains(c),
        roots.contains(g) && m.contains_key(g) && m[g].groups.contains(child) && m.contains_key(child) && addressed(
            m,
            set![child],
        ).contains(c) ==> addressed(m, roots).contains(c),
        addressed(m, roots).contains(c) ==> exists|r: Seq<char>| #[trigger]
            roots.contains(r) && m.contains_key(r) && (m[r].contexts.contains(c) || exists|d: Seq<char>| #[trigger]
                m[r].groups.contains(d) && m.contains_key(d) && addressed(m, set![d]).contains(c)),
{
    if roots.contains(g) && m.contains_key(g) && m[g].contexts.contains(c) {
        root_is_below(m, roots, g);
    }
    if roots.contains(g) && m.contains_key(g) && m[g].groups.contains(child) && m.contains_key(child) && addressed(
        m,
        set![child],
    ).contains(c) {
        let x = choose|x: Seq<char>| below(m, set![child], x) && #[trigger] m[x].contexts.contains(c);
        let p = choose|p: Seq<Seq<char>>| is_chain(m, p) && set![child].contains(p[0]) && #[trigger] p.last() == x;
        let q = seq![g] + p;
        assert forall|i: int| 0 <= i < q.len() implies m.contains_key(#[trigger] q[i]) by {
            if i > 0 {
                assert(q[i] == p[i - 1]);
            }
        }
        assert forall|i: int, j: int| 0 <= i && j == i + 1 && j < q.len() implies m[#[trigger] q[i]].groups.contains(
            #[trigger] q[j],
        ) by {
            if i > 0 {
                assert(q[i] == p[i - 1] && q[j] == p[j - 1]);
            }
        }
        assert(q.last() == x);
        assert(q[0] == g);
        assert(below(m, roots, x));
    }
    if addressed(m, roots).contains(c) {
        let x = choose|x: Seq<char>| below(m, roots, x) && #[trigger] m[x].contexts.contains(c);
        let p = choose|p: Seq<Seq<char>>| is_chain(m, p) && roots.contains(p[0]) && #[trigger] p.last() == x;
        let r = p[0];
        assert(roots.contains(r) && m.contains_key(r));
        if p.len() > 1 {
            let q = p.drop_first();
            let d = p[1];
            assert forall|i: int| 0 <= i < q.len() implies m.contains_key(#[trigger] q[i]) by {
                assert(q[i] == p[i + 1]);
            }
            assert forall|i: int, j: int| 0 <= i && j == i + 1 && j < q.len() implies m[#[trigger] q[i]].groups.contains(
                #[trigger] q[j],
            ) by {
                assert(q[i] == p[i + 1] && q[j] == p[j + 1]);
            }
            assert(q[0] == d && q.last() == x);
            assert(below(m, set![d], x));
            assert(m[p[0]].groups.contains(p[1]));
            assert(m.contains_key(p[1]));
        }
    }
}

/// A repair grows the nesting edge by edge.
proof fn children_grow(
    m: Map<Seq<char>, GroupView>,
    parent: Seq<char>,
    children: Seq<Seq<char>>,
    child: Seq<char>,
    last: Map<Seq<char>, GroupView>,
)
    requires
        m.contains_key(parent),
        nested_within(with_children(m, parent, children), last),
    ensures
        nested_within(m, last),
        with_children(m, parent, children).contains_key(parent),
        children.contains(child) && nesting_fits(
            last.insert(parent, GroupView { groups: last[parent].groups.insert(child), ..last[parent] }),
        ) ==> last[parent].groups.contains(child),
    decreases children.len(),
{
    if children.len() > 0 {
        let rest = children.drop_last();
        let w = with_children(m, parent, rest);
        let now = with_children(m, parent, children);
        with_children_keep_names(m, parent, rest);
        assert(w.contains_key(parent));
        let tried = w.insert(parent, GroupView { groups: w[parent].groups.insert(children.last()), ..w[parent] });
        assert(nested_within(w, now));
        assert(nested_within(w, last)) by {
            assert forall|n: Seq<char>| #[trigger] w.contains_key(n) implies last.contains_key(n) && w[n].groups.subset_of(
                last[n].groups,
            ) by {
                assert(now.contains_key(n));
            }
        }
        children_grow(m, parent, rest, child, last);
        if children.contains(child) && nesting_fits(
            last.insert(parent, GroupView { groups: last[parent].groups.insert(child), ..last[parent] }),
        ) {
            if child == children.last() {
                let end = last.insert(parent, GroupView { groups: last[parent].groups.insert(child), ..last[parent] });
                assert(nested_within(tried, end));
                smaller_nesting_fits(tried, end);
                assert(now == tried);
                assert(now.contains_key(parent));
                assert(now[parent].groups.contains(child));
            } else {
                let i = choose|i: int| 0 <= i < children.len() && children[i] == child;
                assert(rest[i] == child);
            }
        }
    }
}

proof fn with_children_keep_names(m: Map<Seq<char>, GroupView>, parent: Seq<char>, children: Seq<Seq<char>>)
    requires
        m.contains_key(parent),
    ensures
        with_children(m, parent, children).dom() == m.dom(),
    decreases children.len(),
{
    if children.len() > 0 {
        with_children_keep_names(m, parent, children.drop_last());
        assert(with_children(m, parent, children).dom() =~= m.dom());
    }
}

proof fn edges_grow(
    m: Map<Seq<char>, GroupView>,
    full: Map<Seq<char>, GroupView>,
    parents: Seq<Seq<char>>,
    parent: Seq<char>,
    child: Seq<char>,
    last: Map<Seq<char>, GroupView>,
)
    requires
        m.dom() == full.dom(),
        forall|i: int| 0 <= i < parents.len() ==> full.contains_key(#[trigger] parents[i]),
        forall|n: Seq<char>| #[trigger] full.contains_key(n) ==> full[n].groups.finite(),
        nested_within(with_edges_of(m, full, parents), last),
    ensures
        with_edges_of(m, full, parents).dom() == m.dom(),
        parents.contains(parent) && full[parent].groups.contains(child) && nesting_fits(
            last.insert(parent, GroupView { groups: last[parent].groups.insert(child), ..last[parent] }),
        ) ==> last[parent].groups.contains(child),
    decreases parents.len(),
{
    if parents.len() > 0 {
        let rest = parents.drop_last();
        let p = parents.last();
        assert(full.contains_key(parents[parents.len() - 1]));
        let w = with_edges_of(m, full, rest);
        let children = names::in_order(full[p].groups);
        names::in_order_of_finite(full[p].groups);
        assert forall|i: int| 0 <= i < rest.len() implies full.contains_key(#[trigger] rest[i]) by {
            assert(rest[i] == parents[i]);
        }
        edges_keep_names(m, full, rest);
        with_children_keep_names(w, p, children);
        children_grow(w, p, children, child, last);
        edges_grow(m, full, rest, parent, child, last);
        if parents.contains(parent) && full[parent].groups.contains(child) && nesting_fits(
            last.insert(parent, GroupView { groups: last[parent].groups.insert(child), ..last[parent] }),
        ) {
            if parent == p {
                assert(children.to_set().contains(child));
            } else {
                let i = choose|i: int| 0 <= i < parents.len() && parents[i] == parent;
                assert(rest[i] == parent);
            }
        }
    }
}

proof fn edges_keep_names(m: Map<Seq<char>, GroupView>, full: Map<Seq<char>, GroupView>, parents: Seq<Seq<char>>)
    requires
        m.dom() == full.dom(),
        forall|i: int| 0 <= i < parents.len() ==> full.contains_key(#[trigger] parents[i]),
    ensures
        with_edges_of(m, full, parents).dom() == m.dom(),
    decreases parents.len(),
{
    if parents.len() > 0 {
        let rest = parents.drop_last();
        assert forall|i: int| 0 <= i < rest.len() implies full.contains_key(#[trigger] rest[i]) by {
            assert(rest[i] == parents[i]);
        }
        edges_keep_names(m, full, rest);
        assert(full.contains_key(parents[parents.len() - 1]));
        with_children_keep_names(with_edges_of(m, full, rest), parents.last(), names::in_order(full[parents.last()].groups));
    }
}

/// A repair drops no edge that could have stayed: with any edge that it
/// dropped put back, the nesting would not fit.
pub proof fn repair_drops_only_what_must_go(m: Map<Seq<char>, GroupView>, parent: Seq<char>, child: Seq<char>)
    requires
        m.dom().finite(),
        forall|n: Seq<char>| #[trigger] m.contains_key(n) ==> m[n].groups.finite(),
        m.contains_key(parent),
        m[parent].groups.contains(child),
        !repaired(m)[parent].groups.contains(child),
    ensures
        ({
            let r = repaired(m);
            !nesting_fits(r.insert(parent, GroupView { groups: r[parent].groups.insert(child), ..r[parent] }))
        }),
{
    let f = flattened(m);
    let parents = names::in_order(m.dom());
    names::in_order_of_finite(m.dom());
    assert(f.dom() =~= m.dom());
    assert forall|i: int| 0 <= i < parents.len() implies m.contains_key(#[trigger] parents[i]) by {
        assert(parents.to_set().contains(parents[i]));
    }
    assert(parents.to_set().contains(parent));
    assert(nested_within(repaired(m), repaired(m)));
    edges_grow(f, m, parents, parent, child, repaired(m));
}

/// Where a name gives way to another, a set that held it holds the other in
/// its place; where it just goes, it no longer holds it. A set that did not
/// hold it, and every other name, stays as it was.
pub proof fn names_give_way_where_they_stand(s: Set<Seq<char>>, from: Seq<char>, to: Seq<char>, n: Seq<char>)
    ensures
        !s.contains(from) ==> replaced_in(s, from, Some(to)) == s && replaced_in(s, from, None) == s,
        s.contains(from) ==> replaced_in(s, from, Some(to)).contains(to),
        from != to ==> !replaced_in(s, from, Some(to)).contains(from),
        !replaced_in(s, from, None).contains(from),
        n != from && n != to ==> replaced_in(s, from, Some(to)).contains(n) == s.contains(n),
        n != from ==> replaced_in(s, from, None).contains(n) == s.contains(n),
{
}

/// A rewrite touches the children or the members of every record, as asked,
/// and nothing else of it.
pub proof fn rewrites_touch_one_set(
    m: Map<Seq<char>, GroupView>,
    from: Seq<char>,
    to: Option<Seq<char>>,
    children: bool,
    g: Seq<char>,
)
    ensures
        all_rewritten(m, from, to, children).dom() == m.dom(),
        m.contains_key(g) ==> {
            let was = m[g];
            let now = all_rewritten(m, from, to, children)[g];
            &&& now.description == was.description
            &&& children ==> now.contexts == was.contexts && now.groups == replaced_in(was.groups, from, to)
            &&& !children ==> now.groups == was.groups && now.contexts == replaced_in(was.contexts, from, to)
            &&& names_it(was, from, true) <==> was.groups.contains(from)
            &&& names_it(was, from, false) <==> was.contexts.contains(from)
        },
{
    assert(all_rewritten(m, from, to, children).dom() =~= m.dom());
}

/// A group that was renamed stands under its new name with what it said, and
/// every group that had it as a child has it still, under the new name.
/// Members and all other children stay.
pub proof fn renamed_groups_are_found_by_their_parents(
    m: Map<Seq<char>, GroupView>,
    from: Seq<char>,
    to: Seq<char>,
    g: Seq<char>,
    n: Seq<char>,
)
    requires
        m.contains_key(from),
        !m.contains_key(to),
    ensures
        ({
            let after = renamed_group(m, from, to);
            &&& after.contains_key(g) <==> g == to || (g != from && m.contains_key(g))
            &&& after[to].description == m[from].description && after[to].contexts == m[from].contexts
            &&& g != from && g != to && m.contains_key(g) ==> after[g].description == m[g].description && after[g].contexts
                == m[g].contexts
            &&& g != from && g != to && m.contains_key(g) && m[g].groups.contains(from) ==> after[g].groups.contains(to)
                && !after[g].groups.contains(from)
            &&& g != from && g != to && m.contains_key(g) && n != from && n != to ==> after[g].groups.contains(n)
                == m[g].groups.contains(n)
            &&& n != from && n != to ==> after[to].groups.contains(n) == m[from].groups.contains(n)
        }),
{
}

/// The missing name that is reported is wanted, is not there, and comes
/// before every other such name.
pub proof fn the_first_missing_name_is_reported(
    wanted: Set<Seq<char>>,
    have: Set<Seq<char>>,
    missing: Seq<char>,
    other: Seq<char>,
)
    requires
        first_missing_is(wanted, have, missing),
    ensures
        wanted.contains(missing),
        !have.contains(missing),
        wanted.contains(other) && !have.contains(other) && other != missing ==> names::before(missing, other),
{
    let p = |o: Seq<char>| wanted.contains(o) && !have.contains(o);
    assert(p(missing));
    assert(p(other) == (wanted.contains(other) && !have.contains(other)));
    names::before_total(missing, other);
}

} // verus!
