//! The registry of built-in story structures, keyed by id and listed by name.
use vstd::prelude::*;
use crate::models::{StoryStructure, StructureView, structure_views};
use crate::text::{chars_of, owned, strs};

verus! {

/// `a` comes before `b` when strings are ordered as `str` orders them:
/// character by character, by code point, a proper prefix first.
pub open spec fn name_lt(a: Seq<char>, b: Seq<char>) -> bool
    decreases a.len(),
{
    if a.len() == 0 {
        b.len() > 0
    } else if b.len() == 0 {
        false
    } else if a[0] != b[0] {
        (a[0] as u32) < (b[0] as u32)
    } else {
        name_lt(a.drop_first(), b.drop_first())
    }
}

/// `a` does not come after `b`.
pub open spec fn name_le(a: Seq<char>, b: Seq<char>) -> bool {
    !name_lt(b, a)
}

/// The structures are in order of their names.
pub open spec fn sorted_by_name(r: Seq<StructureView>) -> bool {
    forall|i: int, j: int| 0 <= i < j < r.len() ==> name_le(#[trigger] r[i].name, #[trigger] r[j].name)
}

/// `s` is offered for the medium `m`.
pub open spec fn has_medium(s: StructureView, m: Seq<char>) -> bool {
    s.mediums.contains(m)
}

/// `s` is kept by a listing for `medium` (every structure, when there is none).
pub open spec fn selected(s: StructureView, medium: Option<Seq<char>>) -> bool {
    match medium {
        None => true,
        Some(m) => has_medium(s, m),
    }
}

/// `r` lists the structures of `reg` that `medium` selects, each once, in
/// order of their names.
pub open spec fn lists(reg: Map<Seq<char>, StructureView>, medium: Option<Seq<char>>, r: Seq<StructureView>) -> bool {
    &&& forall|i: int|
        0 <= i < r.len() ==> {
            &&& reg.contains_key(#[trigger] r[i].id)
            &&& reg[r[i].id] == r[i]
            &&& selected(r[i], medium)
        }
    &&& forall|k: Seq<char>|
        reg.contains_key(k) && selected(reg[k], medium) ==> exists|i: int|
            0 <= i < r.len() && #[trigger] r[i].id == k
    &&& forall|i: int, j: int| 0 <= i < j < r.len() ==> #[trigger] r[i].id != #[trigger] r[j].id
    &&& sorted_by_name(r)
}

/// The registry after the structures of `s` were added in order, each
/// replacing the one with its id.
pub open spec fn inserted_all(reg: Map<Seq<char>, StructureView>, s: Seq<StructureView>) -> Map<Seq<char>, StructureView>
    decreases s.len(),
{
    if s.len() == 0 {
        reg
    } else {
        inserted_all(reg, s.drop_last()).insert(s.last().id, s.last())
    }
}

/// No name comes before itself.
pub proof fn lemma_name_lt_irreflexive(a: Seq<char>)
    ensures
        !name_lt(a, a),
    decreases a.len(),
{
    if a.len() > 0 {
        lemma_name_lt_irreflexive(a.drop_first());
    }
}

/// Different characters have different code points.
pub proof fn lemma_char_code_injective(c: char, d: char)
    requires
        c != d,
    ensures
        (c as u32) != (d as u32),
{
    broadcast use vstd::utf8::char_u32_cast;

    if (c as u32) == (d as u32) {
        assert(((c as u32) as char) == c);
        assert(((d as u32) as char) == d);
    }
}

/// Of two different names exactly one comes first.
pub proof fn lemma_name_lt_total(a: Seq<char>, b: Seq<char>)
    ensures
        a != b ==> name_lt(a, b) || name_lt(b, a),
        !(name_lt(a, b) && name_lt(b, a)),
        !name_lt(a, a),
    decreases a.len(),
{
    lemma_name_lt_irreflexive(a);
    if a.len() > 0 && b.len() > 0 {
        if a[0] != b[0] {
            lemma_char_code_injective(a[0], b[0]);
        }
        lemma_name_lt_total(a.drop_first(), b.drop_first());
        if a[0] == b[0] && a != b {
            assert(a =~= seq![a[0]] + a.drop_first());
            assert(b =~= seq![b[0]] + b.drop_first());
        }
    } else if a.len() == 0 && b.len() == 0 {
        assert(a =~= b);
    }
}

/// Order of names is transitive.
pub proof fn lemma_name_lt_trans(a: Seq<char>, b: Seq<char>, c: Seq<char>)
    requires
        name_lt(a, b),
        name_lt(b, c),
    ensures
        name_lt(a, c),
    decreases a.len(),
{
    if a.len() > 0 && b.len() > 0 && c.len() > 0 {
        if a[0] == b[0] && b[0] == c[0] {
            lemma_name_lt_trans(a.drop_first(), b.drop_first(), c.drop_first());
        }
    }
}

/// A name before one that is not after a third comes before the third.
pub proof fn lemma_name_lt_le(a: Seq<char>, b: Seq<char>, c: Seq<char>)
    requires
        name_lt(a, b),
        name_le(b, c),
    ensures
        name_lt(a, c),
{
    lemma_name_lt_total(b, c);
    if b != c {
        lemma_name_lt_trans(a, b, c);
    }
}

/// Whether `a` comes before `b` (`str`'s order).
pub fn name_less(a: &str, b: &str) -> (r: bool)
    ensures
        r == name_lt(a@, b@),
{
    let ca = chars_of(a);
    let cb = chars_of(b);
    let mut i: usize = 0;
    assert(ca@.skip(0) =~= ca@);
    assert(cb@.skip(0) =~= cb@);
    while i < ca.len() && i < cb.len()
        invariant
            ca@ == a@,
            cb@ == b@,
            i <= ca.len(),
            i <= cb.len(),
            name_lt(ca@.skip(i as int), cb@.skip(i as int)) == name_lt(a@, b@),
        decreases ca.len() - i,
    {
        assert(ca@.skip(i as int)[0] == ca@[i as int]);
        assert(cb@.skip(i as int)[0] == cb@[i as int]);
        if ca[i] != cb[i] {
            return (ca[i] as u32) < (cb[i] as u32);
        }
        assert(ca@.skip(i as int).drop_first() =~= ca@.skip(i + 1));
        assert(cb@.skip(i as int).drop_first() =~= cb@.skip(i + 1));
        i = i + 1;
    }
    i == ca.len() && i < cb.len()
}

/// Whether `s` is offered for `medium`.
pub fn offers_medium(s: &StoryStructure, medium: &String) -> (r: bool)
    ensures
        r == has_medium(s@, medium@),
{
    let mut i: usize = 0;
    while i < s.mediums.len()
        invariant
            i <= s.mediums.len(),
            forall|k: int| 0 <= k < i ==> s.mediums@[k]@ != medium@,
        decreases s.mediums.len() - i,
    {
        if s.mediums[i] == *medium {
            assert(strs(s.mediums@)[i as int] == medium@);
            return true;
        }
        i = i + 1;
    }
    assert forall|k: int| 0 <= k < strs(s.mediums@).len() implies strs(s.mediums@)[k] != medium@ by {
        assert(s.mediums@[k]@ != medium@);
    }
    false
}

/// The stored structures, each once, with the map from id to structure
/// that they make up.
struct Entries {
    structures: Vec<StoryStructure>,
    by_id: Ghost<Map<Seq<char>, StructureView>>,
}

impl Entries {
    /// The stored structures agree with the map: each once, under its id.
    spec fn wf(&self) -> bool {
        &&& forall|i: int|
            0 <= i < self.structures@.len() ==> {
                &&& self.by_id@.contains_key(#[trigger] self.structures@[i]@.id)
                &&& self.by_id@[self.structures@[i]@.id] == self.structures@[i]@
            }
        &&& forall|k: Seq<char>|
            self.by_id@.contains_key(k) ==> exists|i: int|
                0 <= i < self.structures@.len() && #[trigger] self.structures@[i]@.id == k
        &&& forall|i: int, j: int|
            0 <= i < j < self.structures@.len() ==> #[trigger] self.structures@[i]@.id
                != #[trigger] self.structures@[j]@.id
    }

    /// No structure.
    fn empty() -> (r: Self)
        ensures
            r.wf(),
            r.by_id@ == Map::<Seq<char>, StructureView>::empty(),
    {
        Entries { structures: Vec::new(), by_id: Ghost(Map::empty()) }
    }

    /// Where the structure with id `id` is stored, if there is one.
    fn position_of(&self, id: &String) -> (r: Option<usize>)
        ensures
            r matches Some(i) ==> i < self.structures@.len() && self.structures@[i as int]@.id == id@,
            r is None ==> forall|k: int| 0 <= k < self.structures@.len() ==> #[trigger] self.structures@[k]@.id != id@,
    {
        let mut i: usize = 0;
        while i < self.structures.len()
            invariant
                i <= self.structures.len(),
                forall|k: int| 0 <= k < i ==> #[trigger] self.structures@[k]@.id != id@,
            decreases self.structures.len() - i,
        {
            if self.structures[i].id == *id {
                return Some(i);
            }
            i = i + 1;
        }
        None
    }

    /// Adds `s`, which replaces the structure that has its id, if any.
    fn insert(&mut self, s: StoryStructure)
        requires
            old(self).wf(),
        ensures
            final(self).wf(),
            final(self).by_id@ == old(self).by_id@.insert(s@.id, s@),
    {
        let ghost sv = s@;
        let ghost old_structures = self.structures@;
        let ghost old_map = self.by_id@;
        let ghost new_map = old_map.insert(sv.id, sv);
        assert forall|k: Seq<char>| old_map.contains_key(k) implies exists|j: int|
            0 <= j < old_structures.len() && #[trigger] old_structures[j]@.id == k by {
            let j = choose|j: int| 0 <= j < self.structures@.len() && #[trigger] self.structures@[j]@.id == k;
            assert(old_structures[j]@.id == k);
        }
        match self.position_of(&s.id) {
            Some(i) => {
                self.structures.set(i, s);
                self.by_id = Ghost(new_map);
                assert forall|k: Seq<char>| self.by_id@.contains_key(k) implies exists|j: int|
                    0 <= j < self.structures@.len() && #[trigger] self.structures@[j]@.id == k by {
                    if k != sv.id {
                        let j = choose|j: int| 0 <= j < old_structures.len() && #[trigger] old_structures[j]@.id == k;
                        assert(self.structures@[j]@.id == k);
                    } else {
                        assert(self.structures@[i as int]@.id == k);
                    }
                }
                assert forall|a: int| 0 <= a < self.structures@.len() implies {
                    &&& self.by_id@.contains_key(#[trigger] self.structures@[a]@.id)
                    &&& self.by_id@[self.structures@[a]@.id] == self.structures@[a]@
                } by {
                    if a != i {
                        assert(old_structures[a]@.id != old_structures[i as int]@.id);
                        assert(old_map[old_structures[a]@.id] == old_structures[a]@);
                    }
                }
                assert forall|a: int, b: int| 0 <= a < b < self.structures@.len() implies #[trigger] self.structures@[a]@.id
                    != #[trigger] self.structures@[b]@.id by {
                    assert(old_structures[a]@.id != old_structures[b]@.id);
                }
            },
            None => {
                self.structures.push(s);
                self.by_id = Ghost(new_map);
                assert forall|k: Seq<char>| self.by_id@.contains_key(k) implies exists|j: int|
                    0 <= j < self.structures@.len() && #[trigger] self.structures@[j]@.id == k by {
                    if k != sv.id {
                        let j = choose|j: int| 0 <= j < old_structures.len() && #[trigger] old_structures[j]@.id == k;
                        assert(self.structures@[j]@.id == k);
                    } else {
                        assert(self.structures@[old_structures.len() as int]@.id == k);
                    }
                }
                assert forall|a: int| 0 <= a < self.structures@.len() implies {
                    &&& self.by_id@.contains_key(#[trigger] self.structures@[a]@.id)
                    &&& self.by_id@[self.structures@[a]@.id] == self.structures@[a]@
                } by {
                    if a < old_structures.len() {
                        assert(old_structures[a]@.id != sv.id);
                        assert(old_map[old_structures[a]@.id] == old_structures[a]@);
                    }
                }
                assert forall|a: int, b: int| 0 <= a < b < self.structures@.len() implies #[trigger] self.structures@[a]@.id
                    != #[trigger] self.structures@[b]@.id by {
                    if b < old_structures.len() {
                        assert(old_structures[a]@.id != old_structures[b]@.id);
                    } else {
                        assert(old_structures[a]@.id != sv.id);
                    }
                }
            },
        }
    }

    /// A copy of each stored structure that `medium` selects, ordered by name.
    fn sorted_copies(&self, medium: Option<&String>) -> (r: Vec<StoryStructure>)
        requires
            self.wf(),
        ensures
            lists(self.by_id@, match medium { Some(m) => Some(m@), None => None }, structure_views(r@)),
    {
        let ghost m = match medium { Some(m) => Some(m@), None => None::<Seq<char>> };
        let mut r: Vec<StoryStructure> = Vec::new();
        let ghost mut origin: Seq<int> = seq![];
        let n = self.structures.len();
        let mut i: usize = 0;
        while i < n
            invariant
                self.wf(),
                m == match medium { Some(md) => Some(md@), None => None::<Seq<char>> },
                n == self.structures@.len(),
                i <= n,
                origin.len() == r@.len(),
                forall|j: int|
                    0 <= j < r@.len() ==> {
                        &&& 0 <= #[trigger] origin[j] < i
                        &&& r@[j]@ == self.structures@[origin[j]]@
                        &&& selected(r@[j]@, m)
                    },
                forall|a: int, b: int| 0 <= a < b < r@.len() ==> #[trigger] origin[a] != #[trigger] origin[b],
                forall|k: int|
                    0 <= k < i && selected(#[trigger] self.structures@[k]@, m) ==> exists|j: int|
                        0 <= j < r@.len() && origin[j] == k,
                sorted_by_name(structure_views(r@)),
            decreases n - i,
        {
            let keep = match medium {
                Some(md) => offers_medium(&self.structures[i], md),
                None => true,
            };
            assert(keep == selected(self.structures@[i as int]@, m));
            if keep {
                let x = self.structures[i].clone();
                let mut p: usize = 0;
                while p < r.len() && !name_less(x.name.as_str(), r[p].name.as_str())
                    invariant
                        p <= r.len(),
                        forall|j: int| 0 <= j < p ==> name_le(#[trigger] r@[j]@.name, x@.name),
                    decreases r.len() - p,
                {
                    p = p + 1;
                }
                let ghost old_r = r@;
                let ghost old_origin = origin;
                proof {
                    if p < old_r.len() {
                        assert forall|j: int| p <= j < old_r.len() implies name_lt(x@.name, #[trigger] old_r[j]@.name) by {
                            if j > p {
                                assert(name_le(structure_views(old_r)[p as int].name, structure_views(old_r)[j].name));
                                lemma_name_lt_le(x@.name, old_r[p as int]@.name, old_r[j]@.name);
                            }
                        }
                    }
                }
                r.insert(p, x);
                proof {
                    origin = old_origin.insert(p as int, i as int);
                    let rv = structure_views(r@);
                    assert forall|a: int, b: int| 0 <= a < b < rv.len() implies name_le(#[trigger] rv[a].name, #[trigger] rv[b].name) by {
                        let ov = structure_views(old_r);
                        if b < p {
                            assert(name_le(ov[a].name, ov[b].name));
                        } else if b == p {
                            assert(name_le(old_r[a]@.name, x@.name));
                        } else if a == p {
                            assert(name_lt(x@.name, old_r[b - 1]@.name));
                            lemma_name_lt_total(x@.name, old_r[b - 1]@.name);
                        } else if a < p {
                            assert(name_le(ov[a].name, ov[b - 1].name));
                        } else {
                            assert(name_le(ov[a - 1].name, ov[b - 1].name));
                        }
                    }
                    assert forall|k: int|
                        0 <= k < i + 1 && selected(#[trigger] self.structures@[k]@, m) implies exists|j: int|
                            0 <= j < r@.len() && origin[j] == k by {
                        if k == i {
                            assert(origin[p as int] == k);
                        } else {
                            let j0 = choose|j: int| 0 <= j < old_r.len() && old_origin[j] == k;
                            if j0 < p {
                                assert(origin[j0] == k);
                            } else {
                                assert(origin[j0 + 1] == k);
                            }
                        }
                    }
                    assert forall|j: int| 0 <= j < r@.len() implies {
                        &&& 0 <= #[trigger] origin[j] < i + 1
                        &&& r@[j]@ == self.structures@[origin[j]]@
                        &&& selected(r@[j]@, m)
                    } by {
                        if j < p {
                            assert(r@[j] == old_r[j]);
                            assert(origin[j] == old_origin[j]);
                        } else if j == p {
                            assert(r@[j] == x);
                            assert(origin[j] == i);
                        } else {
                            assert(r@[j] == old_r[j - 1]);
                            assert(origin[j] == old_origin[j - 1]);
                        }
                    }
                }
            } else {
                proof {
                    assert forall|k: int|
                        0 <= k < i + 1 && selected(#[trigger] self.structures@[k]@, m) implies exists|j: int|
                            0 <= j < r@.len() && origin[j] == k by {
                        assert(k != i);
                    }
                }
            }
            i = i + 1;
        }
        proof {
            let rv = structure_views(r@);
            assert forall|j: int| 0 <= j < rv.len() implies {
                &&& self.by_id@.contains_key(#[trigger] rv[j].id)
                &&& self.by_id@[rv[j].id] == rv[j]
                &&& selected(rv[j], m)
            } by {
                assert(self.structures@[origin[j]]@ == rv[j]);
            }
            assert forall|k: Seq<char>| self.by_id@.contains_key(k) && selected(self.by_id@[k], m) implies exists|j: int|
                0 <= j < rv.len() && #[trigger] rv[j].id == k by {
                let s = choose|s: int| 0 <= s < self.structures@.len() && #[trigger] self.structures@[s]@.id == k;
                assert(self.by_id@[k] == self.structures@[s]@);
                let j = choose|j: int| 0 <= j < r@.len() && origin[j] == s;
                assert(rv[j].id == k);
            }
            assert forall|a: int, b: int| 0 <= a < b < rv.len() implies #[trigger] rv[a].id != #[trigger] rv[b].id by {
                let oa = origin[a];
                let ob = origin[b];
                if oa < ob {
                    assert(self.structures@[oa]@.id != self.structures@[ob]@.id);
                } else {
                    assert(self.structures@[ob]@.id != self.structures@[oa]@.id);
                }
            }
        }
        r
    }

}

/// The structures that the application offers, by id.
pub struct StructureRegistry {
    entries: Entries,
}

impl View for StructureRegistry {
    type V = Map<Seq<char>, StructureView>;

    closed spec fn view(&self) -> Map<Seq<char>, StructureView> {
        self.entries.by_id@
    }
}

impl StructureRegistry {
    #[verifier::type_invariant]
    spec fn well_formed(self) -> bool {
        self.entries.wf()
    }

    /// The registry of the given structures, added in order: one replaces an
    /// earlier one with its id.
    pub fn new(structures: Vec<StoryStructure>) -> (r: Self)
        ensures
            r@ == inserted_all(Map::empty(), structure_views(structures@)),
    {
        let mut r = StructureRegistry { entries: Entries::empty() };
        r.load_all(structures);
        r
    }

    /// Adds the structures in order; one replaces an earlier one with its id.
    pub fn load_all(&mut self, structures: Vec<StoryStructure>)
        ensures
            final(self)@ == inserted_all(old(self)@, structure_views(structures@)),
    {
        proof {
            use_type_invariant(&*self);
        }
        let mut entries = Entries::empty();
        std::mem::swap(&mut self.entries, &mut entries);
        let ghost start = entries.by_id@;
        let ghost all = structure_views(structures@);
        let ghost mut done: Seq<StructureView> = seq![];
        for s in it: structures
            invariant
                entries.wf(),
                all == structure_views(it.seq()),
                done == structure_views(it.history()),
                entries.by_id@ == inserted_all(start, done),
        {
            proof {
                assert(structure_views(it.history().push(s)) =~= done.push(s@));
                assert(done.push(s@).drop_last() =~= done);
            }
            let ghost sv = s@;
            entries.insert(s);
            proof {
                done = done.push(sv);
            }
        }
        proof {
            assert(done =~= all);
        }
        self.entries = entries;
    }

    /// Every structure, each once, ordered by name.
    pub fn get_all(&self) -> (r: Vec<StoryStructure>)
        ensures
            lists(self@, None, structure_views(r@)),
    {
        proof {
            use_type_invariant(self);
        }
        self.entries.sorted_copies(None)
    }

    /// The structures offered for `medium`, each once, ordered by name.
    pub fn get_by_medium(&self, medium: &str) -> (r: Vec<StoryStructure>)
        ensures
            lists(self@, Some(medium@), structure_views(r@)),
    {
        proof {
            use_type_invariant(self);
        }
        let m = owned(medium);
        self.entries.sorted_copies(Some(&m))
    }
}

/// A listing for a medium holds exactly the structures of the full listing
/// that are offered for that medium: it filters the full listing.
pub proof fn lemma_medium_listing_filters_full_listing(
    reg: Map<Seq<char>, StructureView>,
    m: Seq<char>,
    all: Seq<StructureView>,
    by_medium: Seq<StructureView>,
)
    requires
        lists(reg, None, all),
        lists(reg, Some(m), by_medium),
    ensures
        forall|s: StructureView| #[trigger] by_medium.contains(s) <==> all.contains(s) && has_medium(s, m),
{
    assert forall|s: StructureView| #[trigger] by_medium.contains(s) <==> all.contains(s) && has_medium(s, m) by {
        if by_medium.contains(s) {
            let i = choose|i: int| 0 <= i < by_medium.len() && by_medium[i] == s;
            assert(reg.contains_key(by_medium[i].id));
            assert(selected(reg[s.id], None));
            let j = choose|j: int| 0 <= j < all.len() && #[trigger] all[j].id == s.id;
            assert(all[j] == reg[all[j].id]);
            assert(all[j] == s);
        }
        if all.contains(s) && has_medium(s, m) {
            let i = choose|i: int| 0 <= i < all.len() && all[i] == s;
            assert(reg.contains_key(all[i].id));
            assert(selected(reg[s.id], Some(m)));
            let j = choose|j: int| 0 <= j < by_medium.len() && #[trigger] by_medium[j].id == s.id;
            assert(by_medium[j] == reg[by_medium[j].id]);
            assert(by_medium[j] == s);
        }
    }
}


/// Loading keeps, under each id, the last structure loaded with it, and
/// leaves every id that no loaded structure has as it was.
pub proof fn lemma_load_keeps_last_per_id(reg: Map<Seq<char>, StructureView>, s: Seq<StructureView>)
    ensures
        forall|i: int|
            0 <= i < s.len() && (forall|j: int| i < j < s.len() ==> #[trigger] s[j].id != s[i].id) ==> {
                &&& inserted_all(reg, s).contains_key(#[trigger] s[i].id)
                &&& inserted_all(reg, s)[s[i].id] == s[i]
            },
        forall|k: Seq<char>|
            (forall|j: int| 0 <= j < s.len() ==> #[trigger] s[j].id != k) ==> {
                &&& (#[trigger] inserted_all(reg, s).contains_key(k)) == reg.contains_key(k)
                &&& reg.contains_key(k) ==> inserted_all(reg, s)[k] == reg[k]
            },
    decreases s.len(),
{
    if s.len() > 0 {
        let front = s.drop_last();
        lemma_load_keeps_last_per_id(reg, front);
        assert forall|i: int|
            0 <= i < s.len() && (forall|j: int| i < j < s.len() ==> #[trigger] s[j].id != s[i].id) implies {
                &&& inserted_all(reg, s).contains_key(#[trigger] s[i].id)
                &&& inserted_all(reg, s)[s[i].id] == s[i]
            } by {
            if i < s.len() - 1 {
                assert(s[s.len() - 1].id != s[i].id);
                assert(front[i] == s[i]);
                assert forall|j: int| i < j < front.len() implies #[trigger] front[j].id != front[i].id by {
                    assert(front[j] == s[j]);
                }
            }
        }
        assert forall|k: Seq<char>|
            (forall|j: int| 0 <= j < s.len() ==> #[trigger] s[j].id != k) implies {
                &&& (#[trigger] inserted_all(reg, s).contains_key(k)) == reg.contains_key(k)
                &&& reg.contains_key(k) ==> inserted_all(reg, s)[k] == reg[k]
            } by {
            assert(s[s.len() - 1].id != k);
            assert forall|j: int| 0 <= j < front.len() implies #[trigger] front[j].id != k by {
                assert(front[j] == s[j]);
            }
            assert(inserted_all(reg, s) == inserted_all(reg, front).insert(s.last().id, s.last()));
            assert(inserted_all(reg, front).contains_key(k) == reg.contains_key(k));
        }
    }
}


/// The names of the structures strictly increase.
pub open spec fn strictly_sorted(r: Seq<StructureView>) -> bool {
    forall|i: int, j: int| 0 <= i < j < r.len() ==> name_lt(#[trigger] r[i].name, #[trigger] r[j].name)
}

/// No two structures of the registry share a name.
pub open spec fn names_distinct(reg: Map<Seq<char>, StructureView>) -> bool {
    forall|k1: Seq<char>, k2: Seq<char>|
        reg.contains_key(k1) && reg.contains_key(k2) && k1 != k2 ==> #[trigger] reg[k1].name != #[trigger] reg[k2].name
}

/// A listing of a registry whose names are distinct is strictly sorted.
proof fn lemma_listing_strictly_sorted(reg: Map<Seq<char>, StructureView>, medium: Option<Seq<char>>, r: Seq<StructureView>)
    requires
        lists(reg, medium, r),
        names_distinct(reg),
    ensures
        strictly_sorted(r),
{
    assert forall|i: int, j: int| 0 <= i < j < r.len() implies name_lt(#[trigger] r[i].name, #[trigger] r[j].name) by {
        assert(r[i].id != r[j].id);
        assert(reg[r[i].id] == r[i]);
        assert(reg[r[j].id] == r[j]);
        assert(reg[r[i].id].name != reg[r[j].id].name);
        assert(name_le(r[i].name, r[j].name));
        lemma_name_lt_total(r[i].name, r[j].name);
    }
}

/// Filtering keeps a strictly sorted sequence strictly sorted.
proof fn lemma_filter_strictly_sorted(s: Seq<StructureView>, p: spec_fn(StructureView) -> bool)
    requires
        strictly_sorted(s),
    ensures
        strictly_sorted(s.filter(p)),
    decreases s.len(),
{
    reveal(Seq::filter);
    if s.len() > 0 {
        let front = s.drop_last();
        assert forall|i: int, j: int| 0 <= i < j < front.len() implies name_lt(#[trigger] front[i].name, #[trigger] front[j].name) by {
            assert(front[i] == s[i] && front[j] == s[j]);
        }
        lemma_filter_strictly_sorted(front, p);
        let sub = front.filter(p);
        if p(s.last()) {
            let out = sub.push(s.last());
            assert forall|i: int, j: int| 0 <= i < j < out.len() implies name_lt(#[trigger] out[i].name, #[trigger] out[j].name) by {
                if j == out.len() - 1 {
                    assert(sub.contains(out[i]));
                    front.lemma_filter_contains_rev(p, out[i]);
                    let k = choose|k: int| 0 <= k < front.len() && front[k] == out[i];
                    assert(s[k] == out[i]);
                    assert(name_lt(s[k].name, s[s.len() - 1].name));
                } else {
                    assert(out[i] == sub[i] && out[j] == sub[j]);
                }
            }
        }
    }
}

/// Two strictly sorted sequences with the same members are equal.
proof fn lemma_strictly_sorted_unique(a: Seq<StructureView>, b: Seq<StructureView>)
    requires
        strictly_sorted(a),
        strictly_sorted(b),
        forall|x: StructureView| a.contains(x) <==> b.contains(x),
    ensures
        a == b,
    decreases a.len(),
{
    if a.len() == 0 {
        if b.len() > 0 {
            assert(b.contains(b[0]));
        }
        assert(a =~= b);
    } else {
        assert(a.contains(a[0]));
        assert(b.len() > 0);
        assert(b.contains(b[0]));
        let j = choose|j: int| 0 <= j < b.len() && b[j] == a[0];
        let i = choose|i: int| 0 <= i < a.len() && a[i] == b[0];
        if i > 0 && j > 0 {
            assert(name_lt(a[0].name, a[i].name));
            assert(name_lt(b[0].name, b[j].name));
            lemma_name_lt_total(a[0].name, b[0].name);
        }
        if i == 0 {
            assert(a[0] == b[0]);
        } else {
            assert(j == 0);
        }
        let ta = a.drop_first();
        let tb = b.drop_first();
        assert forall|i1: int, j1: int| 0 <= i1 < j1 < ta.len() implies name_lt(#[trigger] ta[i1].name, #[trigger] ta[j1].name) by {
            assert(ta[i1] == a[i1 + 1] && ta[j1] == a[j1 + 1]);
        }
        assert forall|i1: int, j1: int| 0 <= i1 < j1 < tb.len() implies name_lt(#[trigger] tb[i1].name, #[trigger] tb[j1].name) by {
            assert(tb[i1] == b[i1 + 1] && tb[j1] == b[j1 + 1]);
        }
        assert forall|x: StructureView| ta.contains(x) <==> tb.contains(x) by {
            if ta.contains(x) {
                let k = choose|k: int| 0 <= k < ta.len() && ta[k] == x;
                assert(a[k + 1] == x);
                assert(name_lt(a[0].name, x.name));
                lemma_name_lt_total(a[0].name, x.name);
                assert(b.contains(x));
                let l = choose|l: int| 0 <= l < b.len() && b[l] == x;
                assert(l != 0);
                assert(tb[l - 1] == x);
            }
            if tb.contains(x) {
                let k = choose|k: int| 0 <= k < tb.len() && tb[k] == x;
                assert(b[k + 1] == x);
                assert(name_lt(b[0].name, x.name));
                lemma_name_lt_total(b[0].name, x.name);
                assert(a.contains(x));
                let l = choose|l: int| 0 <= l < a.len() && a[l] == x;
                assert(l != 0);
                assert(ta[l - 1] == x);
            }
        }
        lemma_strictly_sorted_unique(ta, tb);
        assert(a =~= seq![a[0]] + ta);
        assert(b =~= seq![b[0]] + tb);
    }
}

/// When no two structures share a name, the listing for a medium is the
/// full listing filtered to the structures offered for that medium, in the
/// same order; so it is never longer than the full listing.
pub proof fn lemma_medium_listing_is_filtered_full_listing(
    reg: Map<Seq<char>, StructureView>,
    m: Seq<char>,
    all: Seq<StructureView>,
    by_medium: Seq<StructureView>,
)
    requires
        lists(reg, None, all),
        lists(reg, Some(m), by_medium),
        names_distinct(reg),
    ensures
        by_medium == all.filter(|s: StructureView| has_medium(s, m)),
        by_medium.len() <= all.len(),
{
    let p = |s: StructureView| has_medium(s, m);
    let f = all.filter(p);
    lemma_listing_strictly_sorted(reg, None, all);
    lemma_listing_strictly_sorted(reg, Some(m), by_medium);
    lemma_filter_strictly_sorted(all, p);
    lemma_medium_listing_filters_full_listing(reg, m, all, by_medium);
    assert forall|x: StructureView| f.contains(x) <==> by_medium.contains(x) by {
        if f.contains(x) {
            all.lemma_filter_contains_rev(p, x);
            let k = choose|k: int| 0 <= k < f.len() && f[k] == x;
            all.lemma_filter_pred(p, k);
        }
        if by_medium.contains(x) {
            let k = choose|k: int| 0 <= k < all.len() && all[k] == x;
            all.lemma_filter_contains(p, k);
        }
    }
    lemma_strictly_sorted_unique(f, by_medium);
    all.lemma_filter_len(p);
}


/// When no two structures of a registry share a name, it has only one
/// listing for a selection: any two listings of it are equal.
pub proof fn lemma_listing_is_unique(
    reg: Map<Seq<char>, StructureView>,
    medium: Option<Seq<char>>,
    r1: Seq<StructureView>,
    r2: Seq<StructureView>,
)
    requires
        lists(reg, medium, r1),
        lists(reg, medium, r2),
        names_distinct(reg),
    ensures
        r1 == r2,
{
    lemma_listing_strictly_sorted(reg, medium, r1);
    lemma_listing_strictly_sorted(reg, medium, r2);
    assert forall|x: StructureView| r1.contains(x) <==> r2.contains(x) by {
        if r1.contains(x) {
            let i = choose|i: int| 0 <= i < r1.len() && r1[i] == x;
            assert(reg.contains_key(r1[i].id) && reg[r1[i].id] == x);
            assert(selected(reg[x.id], medium));
            let j = choose|j: int| 0 <= j < r2.len() && #[trigger] r2[j].id == x.id;
            assert(r2[j] == reg[r2[j].id]);
        }
        if r2.contains(x) {
            let i = choose|i: int| 0 <= i < r2.len() && r2[i] == x;
            assert(reg.contains_key(r2[i].id) && reg[r2[i].id] == x);
            assert(selected(reg[x.id], medium));
            let j = choose|j: int| 0 <= j < r1.len() && #[trigger] r1[j].id == x.id;
            assert(r1[j] == reg[r1[j].id]);
        }
    }
    lemma_strictly_sorted_unique(r1, r2);
}

} // verus!
