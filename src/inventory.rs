use vstd::prelude::*;
use crate::text::chars_of;

verus! {

/// `a` and `b` agree before index `k`, and `k` is where `a` comes first.
pub open spec fn differs_first_at(a: Seq<char>, b: Seq<char>, k: int) -> bool {
    &&& 0 <= k <= a.len()
    &&& k <= b.len()
    &&& forall|j: int| 0 <= j < k ==> a[j] == b[j]
    &&& ((k == a.len() && k < b.len()) || (k < a.len() && k < b.len() && a[k] < b[k]))
}

/// Lexicographic order of names, by code point.
pub open spec fn name_lt(a: Seq<char>, b: Seq<char>) -> bool {
    exists|k: int| #[trigger] differs_first_at(a, b, k)
}

proof fn lemma_name_lt_irreflexive(a: Seq<char>)
    ensures
        !name_lt(a, a),
{
}

proof fn lemma_name_lt_transitive(a: Seq<char>, b: Seq<char>, c: Seq<char>)
    requires
        name_lt(a, b),
        name_lt(b, c),
    ensures
        name_lt(a, c),
{
    let k1 = choose|k: int| differs_first_at(a, b, k);
    let k2 = choose|k: int| differs_first_at(b, c, k);
    if k1 <= k2 {
        assert(differs_first_at(a, c, k1));
    } else {
        assert(differs_first_at(a, c, k2));
    }
}

/// Compares two names: negative when `a` comes first, zero when equal,
/// positive when `b` comes first.
pub fn compare_names(a: &str, b: &str) -> (r: i8)
    ensures
        r < 0 <==> name_lt(a@, b@),
        r == 0 <==> a@ == b@,
        r > 0 <==> name_lt(b@, a@),
{
    let x = chars_of(a);
    let y = chars_of(b);
    let mut i: usize = 0;
    while i < x.len() && i < y.len() && x[i] == y[i]
        invariant
            x@ == a@,
            y@ == b@,
            i <= x@.len(),
            i <= y@.len(),
            forall|j: int| 0 <= j < i ==> x@[j] == y@[j],
        decreases x.len() - i,
    {
        i = i + 1;
    }
    if i == x.len() && i == y.len() {
        assert(a@ =~= b@);
        proof {
            lemma_name_lt_irreflexive(a@);
        }
        0
    } else if i == x.len() || (i < y.len() && x[i] < y[i]) {
        assert(differs_first_at(a@, b@, i as int));
        proof {
            if name_lt(b@, a@) {
                lemma_name_lt_transitive(a@, b@, a@);
                lemma_name_lt_irreflexive(a@);
            }
        }
        -1
    } else {
        assert(differs_first_at(b@, a@, i as int));
        proof {
            if name_lt(a@, b@) {
                lemma_name_lt_transitive(a@, b@, a@);
                lemma_name_lt_irreflexive(a@);
            }
        }
        1
    }
}

/// The map that a list of (name, version) entries describes.
pub open spec fn entries_map(s: Seq<(Seq<char>, Seq<char>)>) -> Map<Seq<char>, Seq<char>>
    decreases s.len(),
{
    if s.len() == 0 {
        Map::empty()
    } else {
        entries_map(s.drop_first()).insert(s[0].0, s[0].1)
    }
}

/// Entries strictly ascending by name, so each name occurs once.
pub open spec fn names_ascending(s: Seq<(Seq<char>, Seq<char>)>) -> bool {
    forall|i: int, j: int| 0 <= i < j < s.len() ==> name_lt(#[trigger] s[i].0, #[trigger] s[j].0)
}

proof fn lemma_entries_map_dom(s: Seq<(Seq<char>, Seq<char>)>, k: Seq<char>)
    ensures
        entries_map(s).dom().contains(k) <==> exists|i: int| 0 <= i < s.len() && #[trigger] s[i].0
            == k,
    decreases s.len(),
{
    if s.len() > 0 {
        lemma_entries_map_dom(s.drop_first(), k);
        if exists|i: int| 0 <= i < s.len() && #[trigger] s[i].0 == k {
            let i = choose|i: int| 0 <= i < s.len() && #[trigger] s[i].0 == k;
            if i > 0 {
                assert(s.drop_first()[i - 1].0 == k);
            }
        }
        if exists|i: int| 0 <= i < s.len() - 1 && #[trigger] s.drop_first()[i].0 == k {
            let i = choose|i: int| 0 <= i < s.len() - 1 && #[trigger] s.drop_first()[i].0 == k;
            assert(s[i + 1].0 == k);
        }
    }
}

proof fn lemma_entries_map_insert(s: Seq<(Seq<char>, Seq<char>)>, j: int, e: (Seq<char>, Seq<char>))
    requires
        0 <= j <= s.len(),
        forall|i: int| 0 <= i < s.len() ==> #[trigger] s[i].0 != e.0,
    ensures
        entries_map(s.insert(j, e)) == entries_map(s).insert(e.0, e.1),
    decreases s.len(),
{
    if j == 0 {
        assert(s.insert(j, e).drop_first() =~= s);
    } else {
        assert(s.insert(j, e).drop_first() =~= s.drop_first().insert(j - 1, e));
        lemma_entries_map_insert(s.drop_first(), j - 1, e);
        assert(s[0].0 != e.0);
        assert(entries_map(s.insert(j, e)) =~= entries_map(s).insert(e.0, e.1));
    }
}

proof fn lemma_entries_map_update(s: Seq<(Seq<char>, Seq<char>)>, j: int, e: (Seq<char>, Seq<char>))
    requires
        0 <= j < s.len(),
        names_ascending(s),
        s[j].0 == e.0,
    ensures
        entries_map(s.update(j, e)) == entries_map(s).insert(e.0, e.1),
    decreases s.len(),
{
    if j == 0 {
        assert(s.update(j, e).drop_first() =~= s.drop_first());
        assert(entries_map(s.update(j, e)) =~= entries_map(s).insert(e.0, e.1));
    } else {
        assert(s.update(j, e).drop_first() =~= s.drop_first().update(j - 1, e));
        assert(names_ascending(s.drop_first())) by {
            assert forall|a: int, b: int| 0 <= a < b < s.len() - 1 implies name_lt(
                #[trigger] s.drop_first()[a].0,
                #[trigger] s.drop_first()[b].0,
            ) by {
                assert(name_lt(s[a + 1].0, s[b + 1].0));
            }
        }
        lemma_entries_map_update(s.drop_first(), j - 1, e);
        assert(name_lt(s[0].0, s[j].0));
        lemma_name_lt_irreflexive(s[0].0);
        assert(entries_map(s.update(j, e)) =~= entries_map(s).insert(e.0, e.1));
    }
}

/// Two ascending entry lists that describe the same map are the same list.
proof fn lemma_ascending_unique(a: Seq<(Seq<char>, Seq<char>)>, b: Seq<(Seq<char>, Seq<char>)>)
    requires
        names_ascending(a),
        names_ascending(b),
        entries_map(a) == entries_map(b),
    ensures
        a == b,
    decreases a.len(),
{
    if a.len() == 0 || b.len() == 0 {
        if a.len() > 0 {
            lemma_entries_map_dom(a, a[0].0);
            lemma_entries_map_dom(b, a[0].0);
        }
        if b.len() > 0 {
            lemma_entries_map_dom(a, b[0].0);
            lemma_entries_map_dom(b, b[0].0);
        }
        assert(a =~= b);
    } else {
        let (ka, kb) = (a[0].0, b[0].0);
        lemma_entries_map_dom(a, ka);
        lemma_entries_map_dom(b, ka);
        lemma_entries_map_dom(a, kb);
        lemma_entries_map_dom(b, kb);
        let i = choose|i: int| 0 <= i < b.len() && #[trigger] b[i].0 == ka;
        let i2 = choose|i: int| 0 <= i < a.len() && #[trigger] a[i].0 == kb;
        if ka != kb {
            assert(i > 0 && i2 > 0);
            assert(name_lt(kb, ka));
            assert(name_lt(ka, kb));
            lemma_name_lt_transitive(ka, kb, ka);
            lemma_name_lt_irreflexive(ka);
        }
        let (ta, tb) = (a.drop_first(), b.drop_first());
        assert(names_ascending(ta)) by {
            assert forall|x: int, y: int| 0 <= x < y < ta.len() implies name_lt(
                #[trigger] ta[x].0,
                #[trigger] ta[y].0,
            ) by {
                assert(name_lt(a[x + 1].0, a[y + 1].0));
            }
        }
        assert(names_ascending(tb)) by {
            assert forall|x: int, y: int| 0 <= x < y < tb.len() implies name_lt(
                #[trigger] tb[x].0,
                #[trigger] tb[y].0,
            ) by {
                assert(name_lt(b[x + 1].0, b[y + 1].0));
            }
        }
        lemma_name_lt_irreflexive(ka);
        assert(!entries_map(ta).dom().contains(ka)) by {
            lemma_entries_map_dom(ta, ka);
            if exists|x: int| 0 <= x < ta.len() && #[trigger] ta[x].0 == ka {
                let x = choose|x: int| 0 <= x < ta.len() && #[trigger] ta[x].0 == ka;
                assert(name_lt(a[0].0, a[x + 1].0));
            }
        }
        assert(!entries_map(tb).dom().contains(ka)) by {
            lemma_entries_map_dom(tb, ka);
            if exists|x: int| 0 <= x < tb.len() && #[trigger] tb[x].0 == ka {
                let x = choose|x: int| 0 <= x < tb.len() && #[trigger] tb[x].0 == ka;
                assert(name_lt(b[0].0, b[x + 1].0));
            }
        }
        assert(entries_map(ta) =~= entries_map(a).remove(ka));
        assert(entries_map(tb) =~= entries_map(b).remove(ka));
        assert(a[0].1 == entries_map(a)[ka]);
        assert(b[0].1 == entries_map(b)[ka]);
        lemma_ascending_unique(ta, tb);
        assert(a[0] == b[0]);
        assert forall|x: int| 0 < x < a.len() implies a[x] == b[x] by {
            assert(a[x] == ta[x - 1]);
            assert(b[x] == tb[x - 1]);
        }
        assert(a =~= b);
    }
}

proof fn lemma_entries_map_value(s: Seq<(Seq<char>, Seq<char>)>, i: int)
    requires
        0 <= i < s.len(),
        names_ascending(s),
    ensures
        entries_map(s).dom().contains(s[i].0),
        entries_map(s)[s[i].0] == s[i].1,
    decreases s.len(),
{
    if i > 0 {
        let t = s.drop_first();
        assert(names_ascending(t)) by {
            assert forall|x: int, y: int| 0 <= x < y < t.len() implies name_lt(
                #[trigger] t[x].0,
                #[trigger] t[y].0,
            ) by {
                assert(name_lt(s[x + 1].0, s[y + 1].0));
            }
        }
        assert(t[i - 1] == s[i]);
        lemma_entries_map_value(t, i - 1);
        assert(name_lt(s[0].0, s[i].0));
        lemma_name_lt_irreflexive(s[0].0);
    }
}

/// Installed packages of interest: each name once, with its version, kept in
/// ascending order of name.
pub struct Inventory {
    entries: Vec<(String, String)>,
}

impl View for Inventory {
    type V = Map<Seq<char>, Seq<char>>;

    open spec fn view(&self) -> Map<Seq<char>, Seq<char>> {
        entries_map(self.pairs())
    }
}

impl Inventory {
    /// The entries as (name, version) character sequences, in their order.
    pub closed spec fn pairs(&self) -> Seq<(Seq<char>, Seq<char>)> {
        self.entries@.map_values(|e: (String, String)| (e.0@, e.1@))
    }

    /// The names in the order in which they are enumerated.
    pub open spec fn name_seq(&self) -> Seq<Seq<char>> {
        self.pairs().map_values(|p: (Seq<char>, Seq<char>)| p.0)
    }

    pub open spec fn wf(&self) -> bool {
        names_ascending(self.pairs())
    }

    /// An inventory without packages.
    pub fn new() -> (r: Inventory)
        ensures
            r.wf(),
            r@ == Map::<Seq<char>, Seq<char>>::empty(),
    {
        let r = Inventory { entries: Vec::new() };
        assert(r.pairs() =~= Seq::<(Seq<char>, Seq<char>)>::empty());
        r
    }

    /// Records `version` for `name`, replacing any version recorded before.
    pub fn insert(&mut self, name: String, version: String)
        requires
            old(self).wf(),
        ensures
            final(self).wf(),
            final(self)@ == old(self)@.insert(name@, version@),
    {
        let ghost s = self.pairs();
        let mut j: usize = 0;
        let mut c: i8 = 1;
        while j < self.entries.len()
            invariant
                self.pairs() == s,
                names_ascending(s),
                j <= s.len(),
                forall|i: int| 0 <= i < j ==> name_lt(#[trigger] s[i].0, name@),
            ensures
                self.pairs() == s,
                j <= s.len(),
                forall|i: int| 0 <= i < j ==> name_lt(#[trigger] s[i].0, name@),
                j < s.len() ==> c >= 0,
                j < s.len() ==> (c == 0 <==> s[j as int].0 == name@),
                j < s.len() ==> (c > 0 <==> name_lt(name@, s[j as int].0)),
            decreases s.len() - j,
        {
            c = compare_names(self.entries[j].0.as_str(), name.as_str());
            if c >= 0 {
                break;
            }
            j = j + 1;
        }
        let ghost e = (name@, version@);
        if j < self.entries.len() && c == 0 {
            self.entries.set(j, (name, version));
            assert(self.pairs() =~= s.update(j as int, e));
            proof {
                lemma_entries_map_update(s, j as int, e);
            }
            assert forall|x: int, y: int| 0 <= x < y < s.len() implies name_lt(
                #[trigger] self.pairs()[x].0,
                #[trigger] self.pairs()[y].0,
            ) by {
                assert(name_lt(s[x].0, s[y].0));
            }
        } else {
            assert forall|i: int| 0 <= i < s.len() implies #[trigger] s[i].0 != e.0 by {
                if i < j {
                    lemma_name_lt_irreflexive(e.0);
                } else {
                    if i > j {
                        lemma_name_lt_transitive(e.0, s[j as int].0, s[i].0);
                    }
                    lemma_name_lt_irreflexive(e.0);
                }
            }
            self.entries.insert(j, (name, version));
            assert(self.pairs() =~= s.insert(j as int, e));
            proof {
                lemma_entries_map_insert(s, j as int, e);
            }
            let ghost t = self.pairs();
            assert forall|x: int, y: int| 0 <= x < y < t.len() implies name_lt(
                #[trigger] t[x].0,
                #[trigger] t[y].0,
            ) by {
                if y < j {
                    assert(name_lt(s[x].0, s[y].0));
                } else if y == j {
                } else if x < j {
                    assert(name_lt(s[x].0, e.0));
                    if y > j + 1 {
                        lemma_name_lt_transitive(e.0, s[j as int].0, s[y - 1].0);
                    }
                    lemma_name_lt_transitive(s[x].0, e.0, s[y - 1].0);
                } else if x == j {
                    if y > j + 1 {
                        lemma_name_lt_transitive(e.0, s[j as int].0, s[y - 1].0);
                    }
                } else {
                    assert(name_lt(s[x - 1].0, s[y - 1].0));
                }
            }
        }
    }

    /// The names, in ascending order.
    pub fn names(&self) -> (r: Vec<String>)
        requires
            self.wf(),
        ensures
            r@.map_values(|n: String| n@) == self.name_seq(),
    {
        let mut r: Vec<String> = Vec::new();
        let mut i: usize = 0;
        while i < self.entries.len()
            invariant
                i <= self.entries@.len(),
                r@.map_values(|n: String| n@) == self.name_seq().subrange(0, i as int),
            decreases self.entries.len() - i,
        {
            let n = self.entries[i].0.clone();
            assert(n@ == self.name_seq()[i as int]);
            let ghost prev = r@;
            r.push(n);
            assert(r@.map_values(|n: String| n@) =~= prev.map_values(|n: String| n@).push(n@));
            i = i + 1;
            assert(r@.map_values(|n: String| n@) =~= self.name_seq().subrange(0, i as int));
        }
        assert(self.name_seq().subrange(0, i as int) =~= self.name_seq());
        r
    }

    /// The version recorded for `name`, if any.
    pub fn version_of(&self, name: &str) -> (r: Option<String>)
        requires
            self.wf(),
        ensures
            r is Some <==> self@.dom().contains(name@),
            r is Some ==> r->0@ == self@[name@],
    {
        let mut i: usize = 0;
        while i < self.entries.len()
            invariant
                self.wf(),
                i <= self.entries@.len(),
                forall|j: int| 0 <= j < i ==> #[trigger] self.pairs()[j].0 != name@,
            decreases self.entries.len() - i,
        {
            if compare_names(self.entries[i].0.as_str(), name) == 0 {
                proof {
                    lemma_entries_map_value(self.pairs(), i as int);
                }
                return Some(self.entries[i].1.clone());
            }
            i = i + 1;
        }
        proof {
            lemma_entries_map_dom(self.pairs(), name@);
        }
        None
    }

    /// Whether the two inventories differ in any name or version.
    pub fn differs(&self, other: &Inventory) -> (r: bool)
        requires
            self.wf(),
            other.wf(),
        ensures
            r == (self@ != other@),
    {
        proof {
            if self@ == other@ {
                lemma_ascending_unique(self.pairs(), other.pairs());
            }
        }
        if self.entries.len() != other.entries.len() {
            assert(self.pairs().len() != other.pairs().len());
            return true;
        }
        let mut i: usize = 0;
        while i < self.entries.len()
            invariant
                i <= self.entries@.len() == other.entries@.len(),
                self@ == other@ ==> self.pairs() == other.pairs(),
                forall|j: int| 0 <= j < i ==> #[trigger] self.pairs()[j] == other.pairs()[j],
            decreases self.entries.len() - i,
        {
            let same = self.entries[i].0 == other.entries[i].0 && self.entries[i].1
                == other.entries[i].1;
            if !same {
                assert(self.pairs()[i as int] != other.pairs()[i as int]);
                return true;
            }
            i = i + 1;
        }
        assert(self.pairs() =~= other.pairs());
        false
    }
}

/// Whether the packages of interest changed between two snapshots: any
/// version change, addition or removal counts.
pub fn changed(before: &Inventory, after: &Inventory) -> (r: bool)
    requires
        before.wf(),
        after.wf(),
    ensures
        r == (before@ != after@),
{
    before.differs(after)
}

/// Snapshots with the same names and versions enumerate them in the same
/// order, so that comparing and printing them is deterministic.
pub proof fn lemma_enumeration_determined(a: &Inventory, b: &Inventory)
    requires
        a.wf(),
        b.wf(),
        a@ == b@,
    ensures
        a.name_seq() == b.name_seq(),
{
    lemma_ascending_unique(a.pairs(), b.pairs());
}

/// The enumerated names are exactly the inventory's names, ascending.
pub proof fn lemma_names_ascending(a: &Inventory)
    requires
        a.wf(),
    ensures
        a.name_seq().to_set() == a@.dom(),
        forall|i: int, j: int|
            0 <= i < j < a.name_seq().len() ==> name_lt(
                #[trigger] a.name_seq()[i],
                #[trigger] a.name_seq()[j],
            ),
{
    assert forall|k: Seq<char>| a.name_seq().to_set().contains(k) <==> a@.dom().contains(k) by {
        lemma_entries_map_dom(a.pairs(), k);
        if a@.dom().contains(k) {
            let i = choose|i: int| 0 <= i < a.pairs().len() && #[trigger] a.pairs()[i].0 == k;
            assert(a.name_seq()[i] == k);
        }
        if a.name_seq().to_set().contains(k) {
            let i = choose|i: int| 0 <= i < a.name_seq().len() && a.name_seq()[i] == k;
            assert(a.pairs()[i].0 == k);
        }
    }
    assert(a.name_seq().to_set() =~= a@.dom());
}

/// Names strictly ascending, so each occurs once.
pub open spec fn ascending(s: Seq<Seq<char>>) -> bool {
    forall|i: int, j: int| 0 <= i < j < s.len() ==> name_lt(#[trigger] s[i], #[trigger] s[j])
}

/// The names of `m` in ascending order.
pub open spec fn sorted_names(m: Map<Seq<char>, Seq<char>>) -> Seq<Seq<char>> {
    choose|s: Seq<Seq<char>>| ascending(s) && s.to_set() == m.dom()
}

proof fn lemma_ascending_set_unique(a: Seq<Seq<char>>, b: Seq<Seq<char>>)
    requires
        ascending(a),
        ascending(b),
        a.to_set() == b.to_set(),
    ensures
        a == b,
    decreases a.len(),
{
    if a.len() == 0 || b.len() == 0 {
        if a.len() > 0 {
            assert(a.to_set().contains(a[0]));
        }
        if b.len() > 0 {
            assert(b.to_set().contains(b[0]));
        }
        assert(a =~= b);
    } else {
        assert(a.to_set().contains(a[0]));
        assert(b.to_set().contains(b[0]));
        let i = choose|i: int| 0 <= i < b.len() && b[i] == a[0];
        let i2 = choose|i: int| 0 <= i < a.len() && a[i] == b[0];
        if a[0] != b[0] {
            assert(name_lt(b[0], b[i]));
            assert(name_lt(a[0], a[i2]));
            lemma_name_lt_transitive(a[0], b[0], a[0]);
            lemma_name_lt_irreflexive(a[0]);
        }
        let (ta, tb) = (a.drop_first(), b.drop_first());
        assert(ascending(ta)) by {
            assert forall|x: int, y: int| 0 <= x < y < ta.len() implies name_lt(
                #[trigger] ta[x],
                #[trigger] ta[y],
            ) by {
                assert(name_lt(a[x + 1], a[y + 1]));
            }
        }
        assert(ascending(tb)) by {
            assert forall|x: int, y: int| 0 <= x < y < tb.len() implies name_lt(
                #[trigger] tb[x],
                #[trigger] tb[y],
            ) by {
                assert(name_lt(b[x + 1], b[y + 1]));
            }
        }
        lemma_name_lt_irreflexive(a[0]);
        assert forall|k: Seq<char>| ta.to_set().contains(k) <==> tb.to_set().contains(k) by {
            if ta.to_set().contains(k) {
                let x = choose|x: int| 0 <= x < ta.len() && ta[x] == k;
                assert(name_lt(a[0], a[x + 1]));
                assert(a.to_set().contains(k));
                let y = choose|y: int| 0 <= y < b.len() && b[y] == k;
                assert(y != 0);
                assert(tb[y - 1] == k);
            }
            if tb.to_set().contains(k) {
                let x = choose|x: int| 0 <= x < tb.len() && tb[x] == k;
                assert(name_lt(b[0], b[x + 1]));
                assert(b.to_set().contains(k));
                let y = choose|y: int| 0 <= y < a.len() && a[y] == k;
                assert(y != 0);
                assert(ta[y - 1] == k);
            }
        }
        assert(ta.to_set() =~= tb.to_set());
        lemma_ascending_set_unique(ta, tb);
        assert forall|x: int| 0 < x < a.len() implies a[x] == b[x] by {
            assert(a[x] == ta[x - 1]);
            assert(b[x] == tb[x - 1]);
        }
        assert(a =~= b);
    }
}

/// An inventory enumerates its names in the order `sorted_names` gives.
pub proof fn lemma_names_sorted(a: &Inventory)
    requires
        a.wf(),
    ensures
        a.name_seq() == sorted_names(a@),
{
    lemma_names_ascending(a);
    let n = a.name_seq();
    assert(ascending(n));
    assert(ascending(sorted_names(a@)) && sorted_names(a@).to_set() == a@.dom());
    lemma_ascending_set_unique(n, sorted_names(a@));
}

} // verus!
