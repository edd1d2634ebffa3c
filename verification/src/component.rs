//! Component identity and layout metadata.

use vstd::arithmetic::power2::is_pow2;
use vstd::layout::valid_layout;
use vstd::prelude::*;

verus! {

/// A type that can be stored as part of an entity.
pub trait Component: Send + Sync + 'static {

}

impl Component for () {

}

/// Unique identifier of a component type.
#[derive(Clone, Copy, Debug, PartialEq, Eq, Structural, Hash)]
pub struct ComponentId(pub u64);

/// Whether `size` and `align` describe the layout of an array element: a
/// layout the allocator accepts, whose size is a multiple of its alignment.
pub open spec fn element_layout(size: usize, align: usize) -> bool {
    valid_layout(size, align) && size % align == 0
}

/// Whether `n` is a power of two.
pub fn is_power_of_two(n: usize) -> (r: bool)
    ensures
        r == is_pow2(n as int),
        r ==> n > 0,
{
    if n == 0 {
        proof {
            reveal(is_pow2);
        }
        return false;
    }
    let mut m: usize = n;
    while m % 2 == 0
        invariant
            m > 0,
            is_pow2(m as int) == is_pow2(n as int),
        decreases m,
    {
        proof {
            reveal(is_pow2);
        }
        m = m / 2;
    }
    proof {
        reveal(is_pow2);
    }
    m == 1
}

/// Metadata used to create, access and tear down the values of one component
/// type: its identity, the layout of one value, and whether a value needs a
/// destructor call before its storage is released.
#[derive(Clone, Copy, Debug)]
pub struct ComponentInfo {
    id: ComponentId,
    size: usize,
    align: usize,
    needs_drop: bool,
}

impl ComponentInfo {
    pub closed spec fn spec_id(&self) -> ComponentId {
        self.id
    }

    pub closed spec fn spec_size(&self) -> usize {
        self.size
    }

    pub closed spec fn spec_align(&self) -> usize {
        self.align
    }

    pub closed spec fn spec_needs_drop(&self) -> bool {
        self.needs_drop
    }

    /// The layout of one value is one the allocator accepts.
    pub open spec fn valid(&self) -> bool {
        element_layout(self.size(), self.align())
    }

    /// Metadata for a component type with the given identity and layout.
    /// Absent exactly when `size` and `align` are no element layout.
    pub fn new(id: ComponentId, size: usize, align: usize, needs_drop: bool) -> (r: Option<Self>)
        ensures
            r.is_some() <==> element_layout(size, align),
            r matches Some(info) ==> {
                &&& info.id() == id
                &&& info.size() == size
                &&& info.align() == align
                &&& info.needs_drop() == needs_drop
                &&& info.valid()
            },
    {
        if !is_power_of_two(align) {
            return None;
        }
        let limit: usize = isize::MAX as usize;
        let slack: usize = limit % align;
        assert(slack <= limit) by (nonlinear_arith)
            requires
                slack == limit % align,
                align > 0,
        ;
        if size > limit - slack {
            return None;
        }
        if size % align != 0 {
            return None;
        }
        Some(Self { id, size, align, needs_drop })
    }

    #[verifier::when_used_as_spec(spec_id)]
    pub fn id(&self) -> (r: ComponentId)
        ensures
            r == self.id(),
    {
        self.id
    }

    /// Size in bytes of one value.
    #[verifier::when_used_as_spec(spec_size)]
    pub fn size(&self) -> (r: usize)
        ensures
            r == self.size(),
    {
        self.size
    }

    /// Alignment in bytes of one value.
    #[verifier::when_used_as_spec(spec_align)]
    pub fn align(&self) -> (r: usize)
        ensures
            r == self.align(),
    {
        self.align
    }

    /// Whether a stored value must be destroyed before its bytes are released.
    #[verifier::when_used_as_spec(spec_needs_drop)]
    pub fn needs_drop(&self) -> (r: bool)
        ensures
            r == self.needs_drop(),
    {
        self.needs_drop
    }
}

/// The identities of a list of metadata, in the same order.
pub open spec fn ids_of(infos: Seq<ComponentInfo>) -> Seq<ComponentId> {
    infos.map_values(|info: ComponentInfo| info.id())
}

/// Each identity is smaller than all that follow it: sorted, nothing twice.
pub open spec fn strictly_increasing(ids: Seq<ComponentId>) -> bool {
    forall|i: int, j: int| 0 <= i < j < ids.len() ==> ids[i].0 < ids[j].0
}

/// `key` is the canonical form of the set that `ids` lists: the same
/// identities, sorted, each once.
pub open spec fn is_canonical_key(key: Seq<ComponentId>, ids: Seq<ComponentId>) -> bool {
    &&& strictly_increasing(key)
    &&& forall|id: ComponentId| key.contains(id) <==> ids.contains(id)
}

/// `infos[i]` is the first entry of `infos` with its identity.
pub open spec fn is_first_of_id(infos: Seq<ComponentInfo>, i: int) -> bool {
    &&& 0 <= i < infos.len()
    &&& forall|k: int| 0 <= k < i ==> infos[k].id() != infos[i].id()
}

/// `info` is an entry of `infos`, and the first one with its identity.
pub open spec fn comes_first_in(info: ComponentInfo, infos: Seq<ComponentInfo>) -> bool {
    exists|i: int| #[trigger] is_first_of_id(infos, i) && infos[i] == info
}

/// `canon` is the canonical form of `infos`: sorted by identity, one entry
/// for each identity that occurs in `infos`, namely the first one given.
pub open spec fn is_canonical(canon: Seq<ComponentInfo>, infos: Seq<ComponentInfo>) -> bool {
    &&& is_canonical_key(ids_of(canon), ids_of(infos))
    &&& forall|j: int| 0 <= j < canon.len() ==> comes_first_in(#[trigger] canon[j], infos)
}

/// Binary search for `id` in a sorted list of identities. `Ok` holds the
/// position of `id`; `Err` holds the position at which `id` would have to be
/// inserted to keep the list sorted.
pub fn search_ids(ids: &[ComponentId], id: ComponentId) -> (r: Result<usize, usize>)
    requires
        strictly_increasing(ids@),
    ensures
        match r {
            Ok(i) => i < ids@.len() && ids@[i as int] == id,
            Err(i) => {
                &&& i <= ids@.len()
                &&& forall|k: int| 0 <= k < i ==> ids@[k].0 < id.0
                &&& forall|k: int| i <= k < ids@.len() ==> id.0 < ids@[k].0
            },
        },
{
    let mut lo: usize = 0;
    let mut hi: usize = ids.len();
    while lo < hi
        invariant
            lo <= hi <= ids@.len(),
            strictly_increasing(ids@),
            forall|k: int| 0 <= k < lo ==> ids@[k].0 < id.0,
            forall|k: int| hi <= k < ids@.len() ==> id.0 < ids@[k].0,
        decreases hi - lo,
    {
        let mid: usize = lo + (hi - lo) / 2;
        let probe: u64 = ids[mid].0;
        if probe == id.0 {
            return Ok(mid);
        } else if probe < id.0 {
            lo = mid + 1;
        } else {
            hi = mid;
        }
    }
    Err(lo)
}

/// Brings a list of metadata into canonical form: sorted by identity, and of
/// several entries with one identity only the first. Returns the identities
/// beside the metadata.
pub fn canonicalize(infos: &Vec<ComponentInfo>) -> (r: (Vec<ComponentId>, Vec<ComponentInfo>))
    ensures
        is_canonical(r.1@, infos@),
        r.0@ == ids_of(r.1@),
{
    let mut ids: Vec<ComponentId> = Vec::new();
    let mut canon: Vec<ComponentInfo> = Vec::new();
    let mut n: usize = 0;
    while n < infos.len()
        invariant
            n <= infos.len(),
            ids@ == ids_of(canon@),
            strictly_increasing(ids@),
            forall|k: int| 0 <= k < n ==> ids@.contains(#[trigger] infos@[k].id()),
            forall|j: int| 0 <= j < canon@.len() ==> comes_first_in(#[trigger] canon@[j], infos@),
        decreases infos.len() - n,
    {
        let info: ComponentInfo = infos[n];
        let ghost old_ids = ids@;
        let ghost old_canon = canon@;
        match search_ids(ids.as_slice(), info.id()) {
            Ok(_) => {
                assert(ids@.contains(info.id()));
            },
            Err(at) => {
                ids.insert(at, info.id());
                canon.insert(at, info);
                proof {
                    assert(ids@ =~= ids_of(canon@));
                    assert(ids@[at as int] == info.id());
                    assert forall|k: int| 0 <= k < n + 1 implies ids@.contains(
                        #[trigger] infos@[k].id(),
                    ) by {
                        if k < n {
                            let j = choose|j: int| 0 <= j < old_ids.len() && old_ids[j] == infos@[k].id();
                            if j < at {
                                assert(ids@[j] == infos@[k].id());
                            } else {
                                assert(ids@[j + 1] == infos@[k].id());
                            }
                        }
                    }
                    assert(is_first_of_id(infos@, n as int)) by {
                        assert forall|k: int| 0 <= k < n implies infos@[k].id() != infos@[n as int].id() by {
                            let j = choose|j: int| 0 <= j < old_ids.len() && old_ids[j] == infos@[k].id();
                        }
                    }
                    assert forall|j: int| 0 <= j < canon@.len() implies comes_first_in(
                        #[trigger] canon@[j],
                        infos@,
                    ) by {
                        if j < at {
                            assert(canon@[j] == old_canon[j]);
                        } else if j == at {
                            assert(canon@[j] == infos@[n as int]);
                        } else {
                            assert(canon@[j] == old_canon[j - 1]);
                        }
                    }
                }
            },
        }
        n = n + 1;
    }
    proof {
        assert forall|id: ComponentId| ids@.contains(id) <==> ids_of(infos@).contains(id) by {
            if ids@.contains(id) {
                let j = choose|j: int| 0 <= j < ids@.len() && ids@[j] == id;
                let i = choose|i: int| #[trigger] is_first_of_id(infos@, i) && infos@[i] == canon@[j];
                assert(ids_of(infos@)[i] == id);
            }
            if ids_of(infos@).contains(id) {
                let i = choose|i: int| 0 <= i < ids_of(infos@).len() && ids_of(infos@)[i] == id;
                assert(ids@.contains(infos@[i].id()));
            }
        }
    }
    (ids, canon)
}

/// The identities of a list of metadata, in the same order.
pub fn info_ids(infos: &[ComponentInfo]) -> (ids: Vec<ComponentId>)
    ensures
        ids@ == ids_of(infos@),
{
    let mut ids: Vec<ComponentId> = Vec::new();
    let mut n: usize = 0;
    while n < infos.len()
        invariant
            n <= infos@.len(),
            ids@ == ids_of(infos@.take(n as int)),
        decreases infos.len() - n,
    {
        ids.push(infos[n].id());
        assert(ids@ =~= ids_of(infos@.take(n + 1)));
        n = n + 1;
    }
    assert(infos@.take(n as int) =~= infos@);
    ids
}

/// The canonical form of a set of identities: sorted, each once.
pub fn canonical_key(ids: &[ComponentId]) -> (key: Vec<ComponentId>)
    ensures
        is_canonical_key(key@, ids@),
{
    let mut key: Vec<ComponentId> = Vec::new();
    let mut n: usize = 0;
    while n < ids.len()
        invariant
            n <= ids@.len(),
            strictly_increasing(key@),
            forall|k: int| 0 <= k < n ==> key@.contains(#[trigger] ids@[k]),
            forall|j: int| 0 <= j < key@.len() ==> ids@.contains(#[trigger] key@[j]),
        decreases ids.len() - n,
    {
        let id: ComponentId = ids[n];
        let ghost old_key = key@;
        match search_ids(key.as_slice(), id) {
            Ok(_) => {
                assert(key@.contains(id));
            },
            Err(at) => {
                key.insert(at, id);
                proof {
                    assert(key@[at as int] == id);
                    assert forall|k: int| 0 <= k < n + 1 implies key@.contains(#[trigger] ids@[k]) by {
                        if k < n {
                            let j = choose|j: int| 0 <= j < old_key.len() && old_key[j] == ids@[k];
                            if j < at {
                                assert(key@[j] == ids@[k]);
                            } else {
                                assert(key@[j + 1] == ids@[k]);
                            }
                        }
                    }
                    assert forall|j: int| 0 <= j < key@.len() implies ids@.contains(
                        #[trigger] key@[j],
                    ) by {
                        if j < at {
                            assert(key@[j] == old_key[j]);
                        } else if j == at {
                            assert(ids@[n as int] == id);
                        } else {
                            assert(key@[j] == old_key[j - 1]);
                        }
                    }
                }
            },
        }
        n = n + 1;
    }
    proof {
        assert forall|id: ComponentId| key@.contains(id) <==> ids@.contains(id) by {
            if key@.contains(id) {
                let j = choose|j: int| 0 <= j < key@.len() && key@[j] == id;
                assert(ids@.contains(key@[j]));
            }
            if ids@.contains(id) {
                let i = choose|i: int| 0 <= i < ids@.len() && ids@[i] == id;
                assert(key@.contains(ids@[i]));
            }
        }
    }
    key
}

/// Whether two lists of identities are equal.
pub fn same_ids(a: &[ComponentId], b: &[ComponentId]) -> (r: bool)
    ensures
        r == (a@ == b@),
{
    if a.len() != b.len() {
        return false;
    }
    let mut n: usize = 0;
    while n < a.len()
        invariant
            n <= a@.len(),
            a@.len() == b@.len(),
            forall|k: int| 0 <= k < n ==> a@[k] == b@[k],
        decreases a.len() - n,
    {
        if a[n].0 != b[n].0 {
            return false;
        }
        n = n + 1;
    }
    assert(a@ =~= b@);
    true
}

/// Two sorted, duplicate-free lists that hold the same identities are equal.
pub proof fn lemma_canonical_key_unique(a: Seq<ComponentId>, b: Seq<ComponentId>)
    requires
        strictly_increasing(a),
        strictly_increasing(b),
        forall|id: ComponentId| a.contains(id) <==> b.contains(id),
    ensures
        a == b,
    decreases a.len(),
{
    if a.len() == 0 {
        if b.len() > 0 {
            assert(b.contains(b[0]));
            assert(a.contains(b[0]));
        }
        assert(a =~= b);
    } else {
        let x = a.last();
        assert(a.contains(x));
        assert(b.contains(x));
        let y = b.last();
        assert(b.contains(y));
        assert(a.contains(y));
        assert(x == y);
        let a0 = a.drop_last();
        let b0 = b.drop_last();
        assert forall|id: ComponentId| a0.contains(id) <==> b0.contains(id) by {
            if a0.contains(id) {
                let i = choose|i: int| 0 <= i < a0.len() && a0[i] == id;
                assert(a[i] == id);
                assert(a.contains(id));
                let j = choose|j: int| 0 <= j < b.len() && b[j] == id;
                assert(id.0 < x.0);
                assert(j < b.len() - 1);
                assert(b0[j] == id);
            }
            if b0.contains(id) {
                let j = choose|j: int| 0 <= j < b0.len() && b0[j] == id;
                assert(b[j] == id);
                assert(b.contains(id));
                let i = choose|i: int| 0 <= i < a.len() && a[i] == id;
                assert(id.0 < y.0);
                assert(i < a.len() - 1);
                assert(a0[i] == id);
            }
        }
        lemma_canonical_key_unique(a0, b0);
        assert(a =~= a0.push(x));
        assert(b =~= b0.push(y));
    }
}

/// A list of metadata has one canonical form only.
pub proof fn lemma_canonical_unique(
    a: Seq<ComponentInfo>,
    b: Seq<ComponentInfo>,
    infos: Seq<ComponentInfo>,
)
    requires
        is_canonical(a, infos),
        is_canonical(b, infos),
    ensures
        a == b,
{
    lemma_canonical_key_unique(ids_of(a), ids_of(b));
    assert(a.len() == ids_of(a).len());
    assert(b.len() == ids_of(b).len());
    assert forall|j: int| 0 <= j < a.len() implies a[j] == b[j] by {
        assert(ids_of(a)[j] == ids_of(b)[j]);
        assert(comes_first_in(a[j], infos));
        assert(comes_first_in(b[j], infos));
        let x = choose|i: int| #[trigger] is_first_of_id(infos, i) && infos[i] == a[j];
        let y = choose|i: int| #[trigger] is_first_of_id(infos, i) && infos[i] == b[j];
        assert(infos[x].id() == infos[y].id());
        if x < y {
            assert(infos[x].id() != infos[y].id());
        }
        if y < x {
            assert(infos[y].id() != infos[x].id());
        }
    }
    assert(a =~= b);
}

} // verus!
