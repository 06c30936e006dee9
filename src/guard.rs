use vstd::prelude::*;

verus! {

/// The names of a list of package names, in order.
pub open spec fn names_of(names: Seq<String>) -> Seq<Seq<char>> {
    names.map_values(|n: String| n@)
}

/// The packages whose hold a cycle has released and must put back, in the
/// order they were added: the list only grows until the hold command for
/// all of it is issued.
pub struct UnholdGuard {
    names: Vec<String>,
}

impl View for UnholdGuard {
    type V = Seq<Seq<char>>;

    closed spec fn view(&self) -> Seq<Seq<char>> {
        names_of(self.names@)
    }
}

/// What a guard holding `acquired` holds after extending it by each list of
/// `extensions` in turn.
pub open spec fn extended(acquired: Seq<Seq<char>>, extensions: Seq<Seq<String>>) -> Seq<
    Seq<char>,
>
    decreases extensions.len(),
{
    if extensions.len() == 0 {
        acquired
    } else {
        extended(acquired, extensions.drop_last()) + names_of(extensions.last())
    }
}

impl UnholdGuard {
    /// A guard over `names`, whose hold has just been released.
    pub fn new(names: Vec<String>) -> (r: UnholdGuard)
        ensures
            r@ == names_of(names@),
    {
        UnholdGuard { names }
    }

    /// Adds `names`, in order, after what must be held again.
    pub fn extend(&mut self, names: Vec<String>)
        ensures
            final(self)@ == old(self)@ + names_of(names@),
            final(self)@ == extended(old(self)@, seq![names@]),
    {
        let ghost (a, b) = (self.names@, names@);
        let mut names = names;
        self.names.append(&mut names);
        assert(names_of(a + b) =~= names_of(a) + names_of(b));
        assert(seq![b].drop_last() =~= Seq::<Seq<String>>::empty());
        assert(extended(names_of(a), Seq::<Seq<String>>::empty()) == names_of(a));
        assert(seq![b].last() == b);
    }

    /// The names to hold again when the guard is released, in order.
    pub fn names(&self) -> (r: Vec<String>)
        ensures
            names_of(r@) == self@,
    {
        let r = self.names.clone();
        assert(names_of(r@) =~= names_of(self.names@));
        r
    }
}

/// Extending by several lists in turn is extending by each: the guard's
/// `extend` steps compose into `extended`.
pub proof fn lemma_extended_step(acquired: Seq<Seq<char>>, extensions: Seq<Seq<String>>, more: Seq<
    String,
>)
    ensures
        extended(extended(acquired, extensions), seq![more]) == extended(
            acquired,
            extensions.push(more),
        ),
{
    let e = extended(acquired, extensions);
    assert(seq![more].drop_last() =~= Seq::<Seq<String>>::empty());
    assert(extended(e, Seq::<Seq<String>>::empty()) == e);
    assert(seq![more].last() == more);
    assert(extensions.push(more).drop_last() =~= extensions);
    assert(extensions.push(more).last() == more);
}

/// However many times a guard is extended, releasing it holds again exactly
/// the names it was acquired with and the names of every extension.
pub proof fn lemma_release_is_union(
    acquired: Seq<String>,
    extensions: Seq<Seq<String>>,
    k: Seq<char>,
)
    ensures
        extended(names_of(acquired), extensions).contains(k) <==> (names_of(acquired).contains(k)
            || exists|i: int|
            0 <= i < extensions.len() && #[trigger] names_of(extensions[i]).contains(k)),
    decreases extensions.len(),
{
    if extensions.len() > 0 {
        let init = extensions.drop_last();
        let a = extended(names_of(acquired), init);
        let b = names_of(extensions.last());
        lemma_release_is_union(acquired, init, k);
        if (a + b).contains(k) {
            let j = choose|j: int| 0 <= j < (a + b).len() && (a + b)[j] == k;
            if j < a.len() {
                assert(a[j] == k);
            } else {
                assert(b[j - a.len()] == k);
                assert(names_of(extensions[extensions.len() - 1]).contains(k));
            }
        }
        if a.contains(k) {
            let j = choose|j: int| 0 <= j < a.len() && a[j] == k;
            assert((a + b)[j] == k);
        }
        if b.contains(k) {
            let j = choose|j: int| 0 <= j < b.len() && b[j] == k;
            assert((a + b)[j + a.len()] == k);
        }
        if exists|i: int| 0 <= i < init.len() && #[trigger] names_of(init[i]).contains(k) {
            let i = choose|i: int| 0 <= i < init.len() && #[trigger] names_of(init[i]).contains(k);
            assert(names_of(extensions[i]).contains(k));
        }
        if exists|i: int|
            0 <= i < extensions.len() && #[trigger] names_of(extensions[i]).contains(k) {
            let i = choose|i: int|
                0 <= i < extensions.len() && #[trigger] names_of(extensions[i]).contains(k);
            if i < init.len() {
                assert(names_of(init[i]).contains(k));
            }
        }
    }
}

} // verus!
