use vstd::prelude::*;

verus! {

/// The votes that have arrived for one proposal, at most one per voter address.
pub struct VoteTable {
    entries: Vec<(String, i8)>,
}

/// The set of voters whose vote in `m` is in favor (`1`).
pub open spec fn yes_voters(m: Map<Seq<char>, i8>) -> Set<Seq<char>> {
    m.dom().filter(|ip: Seq<char>| m[ip] == 1)
}

/// No address occurs twice among the entries.
pub closed spec fn distinct_keys(s: Seq<(String, i8)>) -> bool {
    forall|i: int, j: int|
        0 <= i < s.len() && 0 <= j < s.len() && i != j ==> #[trigger] s[i].0@ != #[trigger] s[j].0@
}

/// The map from voter address to vote that the entries stand for.
pub closed spec fn table_view(s: Seq<(String, i8)>) -> Map<Seq<char>, i8> {
    Map::new(
        |k: Seq<char>| exists|j: int| 0 <= j < s.len() && #[trigger] s[j].0@ == k,
        |k: Seq<char>| s[choose|j: int| 0 <= j < s.len() && #[trigger] s[j].0@ == k].1,
    )
}

/// With distinct addresses, entry `j` is what the map holds for its address.
proof fn lemma_table_view_at(s: Seq<(String, i8)>, j: int)
    requires
        distinct_keys(s),
        0 <= j < s.len(),
    ensures
        table_view(s).contains_key(s[j].0@),
        table_view(s)[s[j].0@] == s[j].1,
{
    let k = s[j].0@;
    assert(table_view(s).contains_key(k));
    let c = choose|c: int| 0 <= c < s.len() && #[trigger] s[c].0@ == k;
    assert(c == j);
}

/// The addresses among the first `n` entries whose vote is in favor.
closed spec fn yes_prefix(s: Seq<(String, i8)>, n: int) -> Set<Seq<char>> {
    Set::new(|k: Seq<char>| exists|j: int| 0 <= j < n && #[trigger] s[j].0@ == k && s[j].1 == 1)
}

/// With distinct addresses, the table has as many voters as entries.
proof fn lemma_table_view_dom(s: Seq<(String, i8)>)
    requires
        distinct_keys(s),
    ensures
        table_view(s).dom().finite(),
        table_view(s).dom().len() == s.len(),
    decreases s.len(),
{
    if s.len() == 0 {
        assert(table_view(s).dom() =~= Set::<Seq<char>>::empty());
    } else {
        let t = s.drop_last();
        let n = t.len() as int;
        assert forall|a: int, b: int|
            0 <= a < t.len() && 0 <= b < t.len() && a != b implies #[trigger] t[a].0@ != #[trigger] t[b].0@ by {
            assert(s[a].0@ != s[b].0@);
        }
        lemma_table_view_dom(t);
        let k = s[n].0@;
        assert forall|key: Seq<char>|
            #[trigger] table_view(s).dom().contains(key) == table_view(t).dom().insert(k).contains(key) by {
            if table_view(s).dom().contains(key) {
                let j = choose|j: int| 0 <= j < s.len() && #[trigger] s[j].0@ == key;
                if j < n {
                    assert(t[j].0@ == key);
                }
            }
            if table_view(t).dom().contains(key) {
                let j = choose|j: int| 0 <= j < t.len() && #[trigger] t[j].0@ == key;
                assert(s[j].0@ == key);
            }
            if key == k {
                assert(s[n].0@ == key);
            }
        }
        assert(table_view(s).dom() =~= table_view(t).dom().insert(k));
        assert(!table_view(t).dom().contains(k)) by {
            if table_view(t).dom().contains(k) {
                let j = choose|j: int| 0 <= j < t.len() && #[trigger] t[j].0@ == k;
                assert(s[j].0@ == s[n].0@);
            }
        }
    }
}

/// Setting entry `i` of `old` to the vote `v` of `k`, where `i` is either
/// the entry of `k` or, when `k` has none, one past the end, records that
/// vote in the map and keeps the addresses distinct.
proof fn lemma_table_view_record(old: Seq<(String, i8)>, e: Seq<(String, i8)>, i: int, k: Seq<char>, v: i8)
    requires
        distinct_keys(old),
        0 <= i <= old.len(),
        e.len() == if i < old.len() { old.len() } else { old.len() + 1 },
        e[i].0@ == k,
        e[i].1 == v,
        forall|j: int| 0 <= j < e.len() && j != i ==> #[trigger] e[j] == old[j],
        i < old.len() ==> old[i].0@ == k,
        i == old.len() ==> forall|j: int| 0 <= j < old.len() ==> #[trigger] old[j].0@ != k,
    ensures
        distinct_keys(e),
        table_view(e) == table_view(old).insert(k, v),
{
    assert forall|a: int, b: int|
        0 <= a < e.len() && 0 <= b < e.len() && a != b implies #[trigger] e[a].0@ != #[trigger] e[b].0@ by {
        if a != i && b != i {
            assert(old[a].0@ != old[b].0@);
        } else if a == i {
            assert(e[b] == old[b]);
            if i < old.len() {
                assert(old[i].0@ != old[b].0@);
            }
        } else {
            assert(e[a] == old[a]);
            if i < old.len() {
                assert(old[i].0@ != old[a].0@);
            }
        }
    }
    let m0 = table_view(old);
    let m1 = table_view(e);
    assert forall|key: Seq<char>| #[trigger] m1.contains_key(key) == m0.insert(k, v).contains_key(key) by {
        if m0.contains_key(key) {
            let j = choose|j: int| 0 <= j < old.len() && #[trigger] old[j].0@ == key;
            if j != i {
                assert(e[j] == old[j]);
                assert(e[j].0@ == key);
            }
        }
        if key == k {
            assert(e[i].0@ == key);
        }
        if m1.contains_key(key) {
            let j = choose|j: int| 0 <= j < e.len() && #[trigger] e[j].0@ == key;
            if j != i {
                assert(e[j] == old[j]);
                assert(old[j].0@ == key);
            }
        }
    }
    assert forall|key: Seq<char>| #[trigger] m1.contains_key(key) implies m1[key] == m0.insert(k, v)[key] by {
        let j = choose|j: int| 0 <= j < e.len() && #[trigger] e[j].0@ == key;
        lemma_table_view_at(e, j);
        if j != i {
            assert(e[j] == old[j]);
            lemma_table_view_at(old, j);
        }
    }
    assert(m1 =~= m0.insert(k, v));
}

impl VoteTable {
    /// No voter address occurs twice.
    pub closed spec fn wf(&self) -> bool {
        distinct_keys(self.entries@)
    }
}

impl View for VoteTable {
    type V = Map<Seq<char>, i8>;

    closed spec fn view(&self) -> Map<Seq<char>, i8> {
        table_view(self.entries@)
    }
}

impl VoteTable {
    /// An empty table.
    pub fn new() -> (t: VoteTable)
        ensures
            t.wf(),
            t@ == Map::<Seq<char>, i8>::empty(),
    {
        let t = VoteTable { entries: Vec::new() };
        assert(t@ =~= Map::<Seq<char>, i8>::empty());
        t
    }

    /// Records the vote of `ip`, replacing an earlier vote of the same address.
    pub fn record(&mut self, ip: String, vote: i8)
        requires
            old(self).wf(),
        ensures
            final(self).wf(),
            final(self)@ == old(self)@.insert(ip@, vote),
    {
        let ghost old_entries = self.entries@;
        let ghost k = ip@;
        let mut i: usize = 0;
        while i < self.entries.len()
            invariant
                self.entries@ == old_entries,
                distinct_keys(old_entries),
                old(self)@ == table_view(old_entries),
                k == ip@,
                0 <= i <= self.entries@.len(),
                forall|j: int| 0 <= j < i ==> #[trigger] self.entries@[j].0@ != k,
            decreases self.entries@.len() - i,
        {
            if self.entries[i].0 == ip {
                self.entries.set(i, (ip, vote));
                proof {
                    lemma_table_view_record(old_entries, self.entries@, i as int, k, vote);
                }
                return;
            }
            i = i + 1;
        }
        self.entries.push((ip, vote));
        proof {
            lemma_table_view_record(old_entries, self.entries@, old_entries.len() as int, k, vote);
        }
    }

    /// The number of voters whose vote is in favor.
    pub fn yes_count(&self) -> (n: usize)
        requires
            self.wf(),
        ensures
            yes_voters(self@).finite(),
            n == yes_voters(self@).len(),
    {
        let ghost e = self.entries@;
        let mut n: usize = 0;
        let mut i: usize = 0;
        assert(yes_prefix(e, 0) =~= Set::<Seq<char>>::empty());
        while i < self.entries.len()
            invariant
                e == self.entries@,
                distinct_keys(e),
                0 <= i <= e.len(),
                n <= i,
                yes_prefix(e, i as int).finite(),
                n == yes_prefix(e, i as int).len(),
            decreases e.len() - i,
        {
            let ghost k = e[i as int].0@;
            let ghost before = yes_prefix(e, i as int);
            assert(!before.contains(k)) by {
                if before.contains(k) {
                    let j = choose|j: int| 0 <= j < i && #[trigger] e[j].0@ == k && e[j].1 == 1;
                    assert(e[j].0@ == e[i as int].0@);
                }
            }
            if self.entries[i].1 == 1 {
                assert forall|key: Seq<char>|
                    #[trigger] yes_prefix(e, i + 1).contains(key) == before.insert(k).contains(key) by {
                    if yes_prefix(e, i + 1).contains(key) {
                        let j = choose|j: int| 0 <= j < i + 1 && #[trigger] e[j].0@ == key && e[j].1 == 1;
                        if j < i {
                            assert(before.contains(key));
                        }
                    }
                    if before.contains(key) {
                        let j = choose|j: int| 0 <= j < i && #[trigger] e[j].0@ == key && e[j].1 == 1;
                        assert(yes_prefix(e, i + 1).contains(key));
                    }
                    if key == k {
                        assert(e[i as int].0@ == key);
                    }
                }
                assert(yes_prefix(e, i + 1) =~= before.insert(k));
                n = n + 1;
            } else {
                assert forall|key: Seq<char>|
                    #[trigger] yes_prefix(e, i + 1).contains(key) == before.contains(key) by {
                    if yes_prefix(e, i + 1).contains(key) {
                        let j = choose|j: int| 0 <= j < i + 1 && #[trigger] e[j].0@ == key && e[j].1 == 1;
                        assert(j != i);
                    }
                    if before.contains(key) {
                        let j = choose|j: int| 0 <= j < i && #[trigger] e[j].0@ == key && e[j].1 == 1;
                        assert(yes_prefix(e, i + 1).contains(key));
                    }
                }
                assert(yes_prefix(e, i + 1) =~= before);
            }
            i = i + 1;
        }
        proof {
            let m = table_view(e);
            assert forall|key: Seq<char>|
                #[trigger] yes_voters(m).contains(key) == yes_prefix(e, e.len() as int).contains(key) by {
                if yes_voters(m).contains(key) {
                    let j = choose|j: int| 0 <= j < e.len() && #[trigger] e[j].0@ == key;
                    lemma_table_view_at(e, j);
                    assert(yes_prefix(e, e.len() as int).contains(key));
                }
                if yes_prefix(e, e.len() as int).contains(key) {
                    let j = choose|j: int| 0 <= j < e.len() && #[trigger] e[j].0@ == key && e[j].1 == 1;
                    lemma_table_view_at(e, j);
                }
            }
            assert(yes_voters(m) =~= yes_prefix(e, e.len() as int));
        }
        n
    }

    /// The number of distinct voters in the table.
    pub fn voter_count(&self) -> (n: usize)
        requires
            self.wf(),
        ensures
            self@.dom().finite(),
            n == self@.dom().len(),
    {
        proof {
            lemma_table_view_dom(self.entries@);
        }
        self.entries.len()
    }
}

} // verus!
