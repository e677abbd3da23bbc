//! The routing table: selector to facet identity, kept per storage region.
use vstd::prelude::*;

verus! {

/// A key of the routing table as a mathematical value: the bytes of the
/// storage region and the bytes of the selector.
pub type RouteKey = (Seq<u8>, Seq<u8>);

/// Whether a facet identity is the null address (every byte zero).
pub open spec fn is_null(facet: Seq<u8>) -> bool {
    forall|i: int| 0 <= i < facet.len() ==> facet[i] == 0
}

/// What a lookup of `selector` under `region` finds in the table `t`.
pub open spec fn lookup(t: Map<RouteKey, [u8; 20]>, region: Seq<u8>, selector: Seq<u8>) -> Option<
    [u8; 20],
> {
    if t.contains_key((region, selector)) {
        Some(t[(region, selector)])
    } else {
        None
    }
}

/// Tells whether `facet` is the null address.
pub fn is_null_facet(facet: &[u8; 20]) -> (r: bool)
    ensures
        r == is_null(facet@),
{
    let mut i: usize = 0;
    while i < 20
        invariant
            0 <= i <= 20,
            forall|j: int| 0 <= j < i ==> facet@[j] == 0,
        decreases 20 - i,
    {
        if facet[i] != 0 {
            return false;
        }
        i = i + 1;
    }
    true
}

/// Byte-wise equality of two byte strings.
fn bytes_equal(a: &[u8], b: &[u8]) -> (r: bool)
    ensures
        r == (a@ == b@),
{
    if a.len() != b.len() {
        return false;
    }
    let mut i: usize = 0;
    while i < a.len()
        invariant
            a@.len() == b@.len(),
            0 <= i <= a@.len(),
            forall|j: int| 0 <= j < i ==> a@[j] == b@[j],
        decreases a@.len() - i,
    {
        if a[i] != b[i] {
            return false;
        }
        i = i + 1;
    }
    assert(a@ =~= b@);
    true
}

/// One entry of the routing table.
#[derive(Clone, Copy)]
pub struct RouteEntry {
    pub region: [u8; 32],
    pub selector: [u8; 4],
    pub facet: [u8; 20],
}

impl RouteEntry {
    pub open spec fn key(&self) -> RouteKey {
        (self.region@, self.selector@)
    }
}

/// The routing table of the router: for each storage region and selector,
/// at most one facet identity, never the null address.
pub struct DiamondStorage {
    selector_to_facet: Vec<RouteEntry>,
    table: Ghost<Map<RouteKey, [u8; 20]>>,
}

impl View for DiamondStorage {
    type V = Map<RouteKey, [u8; 20]>;

    closed spec fn view(&self) -> Map<RouteKey, [u8; 20]> {
        self.table@
    }
}

impl DiamondStorage {
    /// The entries are keyed uniquely, hold no null facet, and are exactly
    /// the pairs of the table.
    pub closed spec fn wf(&self) -> bool {
        let es = self.selector_to_facet@;
        &&& forall|i: int, j: int|
            0 <= i < es.len() && 0 <= j < es.len() && i != j ==> es[i].key() != es[j].key()
        &&& forall|i: int|
            0 <= i < es.len() ==> {
                &&& self.table@.contains_key(#[trigger] es[i].key())
                &&& self.table@[es[i].key()] == es[i].facet
                &&& !is_null(es[i].facet@)
            }
        &&& forall|k: RouteKey|
            #[trigger] self.table@.contains_key(k) ==> exists|i: int|
                0 <= i < es.len() && es[i].key() == k
    }

    /// An empty routing table.
    pub fn new() -> (r: DiamondStorage)
        ensures
            r.wf(),
            r@ == Map::<RouteKey, [u8; 20]>::empty(),
    {
        DiamondStorage { selector_to_facet: Vec::new(), table: Ghost(Map::empty()) }
    }

    /// The position of the entry for `selector` under `region`, if any.
    fn find(&self, region: &[u8; 32], selector: &[u8; 4]) -> (r: Option<usize>)
        requires
            self.wf(),
        ensures
            match r {
                Some(i) => i < self.selector_to_facet@.len() && self.selector_to_facet@[i as int].key()
                    == (region@, selector@),
                None => !self@.contains_key((region@, selector@)),
            },
    {
        let mut i: usize = 0;
        while i < self.selector_to_facet.len()
            invariant
                self.wf(),
                0 <= i <= self.selector_to_facet@.len(),
                forall|j: int|
                    0 <= j < i ==> self.selector_to_facet@[j].key() != (region@, selector@),
            decreases self.selector_to_facet@.len() - i,
        {
            let e = &self.selector_to_facet[i];
            if bytes_equal(&e.region, region) && bytes_equal(&e.selector, selector) {
                return Some(i);
            }
            i = i + 1;
        }
        None
    }

    /// The facet mapped to `selector` within `region`, or `None` if there is
    /// none.
    pub fn get(&self, region: &[u8; 32], selector: &[u8; 4]) -> (r: Option<[u8; 20]>)
        requires
            self.wf(),
        ensures
            r == lookup(self@, region@, selector@),
            r matches Some(f) ==> !is_null(f@),
    {
        match self.find(region, selector) {
            Some(i) => Some(self.selector_to_facet[i].facet),
            None => None,
        }
    }

    /// Maps `selector` within `region` to `facet`, replacing any earlier
    /// mapping of that selector in that region.
    pub fn set(&mut self, region: &[u8; 32], selector: &[u8; 4], facet: [u8; 20])
        requires
            old(self).wf(),
            !is_null(facet@),
        ensures
            final(self).wf(),
            final(self)@ == old(self)@.insert((region@, selector@), facet),
    {
        let entry = RouteEntry { region: *region, selector: *selector, facet };
        let ghost key = (region@, selector@);
        assert(entry.key() == key);
        let ghost mut pos: int = 0;
        match self.find(region, selector) {
            Some(i) => {
                self.selector_to_facet.set(i, entry);
                proof {
                    pos = i as int;
                }
            },
            None => {
                proof {
                    pos = self.selector_to_facet@.len() as int;
                }
                self.selector_to_facet.push(entry);
            },
        }
        assert(self.selector_to_facet@[pos] == entry);
        self.table = Ghost(self.table@.insert(key, facet));
        assert forall|k: RouteKey| #[trigger] self.table@.contains_key(k) implies exists|i: int|
            0 <= i < self.selector_to_facet@.len() && self.selector_to_facet@[i].key() == k by {
            if k != key {
                let j = choose|j: int|
                    0 <= j < old(self).selector_to_facet@.len()
                        && old(self).selector_to_facet@[j].key() == k;
                assert(self.selector_to_facet@[j].key() == k);
            } else {
                assert(self.selector_to_facet@[pos].key() == k);
            }
        }
    }

    /// Clears the mapping of `selector` within `region`, if there is one.
    pub fn remove(&mut self, region: &[u8; 32], selector: &[u8; 4])
        requires
            old(self).wf(),
        ensures
            final(self).wf(),
            final(self)@ == old(self)@.remove((region@, selector@)),
    {
        let ghost key = (region@, selector@);
        match self.find(region, selector) {
            Some(i) => {
                self.selector_to_facet.remove(i);
            },
            None => {},
        }
        self.table = Ghost(self.table@.remove(key));
        assert forall|k: RouteKey| #[trigger] self.table@.contains_key(k) implies exists|i: int|
            0 <= i < self.selector_to_facet@.len() && self.selector_to_facet@[i].key() == k by {
            let j = choose|j: int|
                0 <= j < old(self).selector_to_facet@.len()
                    && old(self).selector_to_facet@[j].key() == k;
            if self.selector_to_facet@.len() < old(self).selector_to_facet@.len() {
                let i = choose|i: int|
                    0 <= i < old(self).selector_to_facet@.len()
                        && old(self).selector_to_facet@[i].key() == key;
                if j < i {
                    assert(self.selector_to_facet@[j].key() == k);
                } else {
                    assert(self.selector_to_facet@[j - 1].key() == k);
                }
            } else {
                assert(self.selector_to_facet@[j].key() == k);
            }
        }
    }

    /// Every entry of the table, each key once, in no particular order.
    pub fn entries(&self) -> (r: Vec<RouteEntry>)
        requires
            self.wf(),
        ensures
            forall|i: int, j: int|
                0 <= i < r.len() && 0 <= j < r.len() && i != j ==> r[i].key() != r[j].key(),
            forall|i: int|
                0 <= i < r.len() ==> #[trigger] self@.contains_key(r[i].key()) && self@[r[i].key()]
                    == r[i].facet,
            forall|k: RouteKey|
                #[trigger] self@.contains_key(k) ==> exists|i: int| 0 <= i < r.len() && r[i].key() == k,
    {
        let mut r: Vec<RouteEntry> = Vec::new();
        let mut i: usize = 0;
        while i < self.selector_to_facet.len()
            invariant
                self.wf(),
                0 <= i <= self.selector_to_facet@.len(),
                r@ == self.selector_to_facet@.subrange(0, i as int),
            decreases self.selector_to_facet@.len() - i,
        {
            r.push(self.selector_to_facet[i]);
            i = i + 1;
        }
        assert(r@ == self.selector_to_facet@);
        r
    }
}

/// The table that a sequence of writes, each a key and a facet, leaves
/// behind when applied in order to an empty table.
pub open spec fn replay(writes: Seq<(RouteKey, [u8; 20])>) -> Map<RouteKey, [u8; 20]>
    decreases writes.len(),
{
    if writes.len() == 0 {
        Map::empty()
    } else {
        replay(writes.drop_last()).insert(writes.last().0, writes.last().1)
    }
}

/// A selector that no write ever named is absent from the table that the
/// writes leave behind.
pub proof fn lemma_unwritten_absent(
    writes: Seq<(RouteKey, [u8; 20])>,
    region: Seq<u8>,
    selector: Seq<u8>,
)
    requires
        forall|i: int| 0 <= i < writes.len() ==> #[trigger] writes[i].0 != (region, selector),
    ensures
        lookup(replay(writes), region, selector) is None,
    decreases writes.len(),
{
    if writes.len() > 0 {
        let rest = writes.drop_last();
        assert forall|i: int| 0 <= i < rest.len() implies #[trigger] rest[i].0 != (region, selector) by {
            assert(rest[i] == writes[i]);
        }
        lemma_unwritten_absent(rest, region, selector);
        assert(writes[writes.len() - 1].0 != (region, selector));
    }
}

/// A lookup finds the facet of the most recent write to its key.
pub proof fn lemma_latest_write_wins(
    writes: Seq<(RouteKey, [u8; 20])>,
    k: int,
    region: Seq<u8>,
    selector: Seq<u8>,
)
    requires
        0 <= k < writes.len(),
        writes[k].0 == (region, selector),
        forall|j: int| k < j < writes.len() ==> #[trigger] writes[j].0 != (region, selector),
    ensures
        lookup(replay(writes), region, selector) == Some(writes[k].1),
    decreases writes.len(),
{
    let last = writes.len() - 1;
    if k < last {
        let rest = writes.drop_last();
        assert forall|j: int| k < j < rest.len() implies #[trigger] rest[j].0 != (region, selector) by {
            assert(rest[j] == writes[j]);
        }
        assert(rest[k] == writes[k]);
        lemma_latest_write_wins(rest, k, region, selector);
        assert(writes[last].0 != (region, selector));
    }
}

/// A second write to a key replaces the first.
pub proof fn lemma_overwrite(
    t: Map<RouteKey, [u8; 20]>,
    region: Seq<u8>,
    selector: Seq<u8>,
    f1: [u8; 20],
    f2: [u8; 20],
)
    ensures
        lookup(t.insert((region, selector), f1).insert((region, selector), f2), region, selector)
            == Some(f2),
{
}

/// Removing a key that was just written leaves it absent.
pub proof fn lemma_remove_after_set(
    t: Map<RouteKey, [u8; 20]>,
    region: Seq<u8>,
    selector: Seq<u8>,
    f: [u8; 20],
)
    ensures
        lookup(t.insert((region, selector), f).remove((region, selector)), region, selector) is None,
{
}

} // verus!
